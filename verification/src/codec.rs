//! Embedding a framed payload into the low bits of a grid's channels, and
//! reading it back.
//!
//! At bit width `k` the channels of a grid, taken row by row and red, green,
//! blue within a pixel, form one stream of bits: bit `j` of the stream is bit
//! `j % k` of channel `j / k`. Embedding writes the bits of the framed payload
//! to the head of that stream; extracting reads them from it.

use crate::bits::{
    bit_at, bit_of, bits_of, byte_from_bits, bytes_of, lemma_byte_ext, lemma_byte_from_bits_bit,
    lemma_byte_from_bits_unique, lemma_bytes_of_prefix, with_bit,
};
use crate::capacity::{bits_needed, capacity, lemma_capacity_in_bits, lemma_plan_is_smallest, plan, plan_spec};
use crate::error::StegoError;
use crate::frame::{
    declared_length, frame_payload, framed, lemma_framed_parts, read_length, LENGTH_PREFIX_BYTES,
};
use crate::grid::{BitWidth, GridView, PixelGrid, MAX_CHANNELS};
use vstd::arithmetic::div_mod::*;
use vstd::arithmetic::mul::*;
use vstd::prelude::*;

verus! {

/// Bit `j` of the stream that `samples` carry at bit width `k`.
pub open spec fn stream_bit(samples: Seq<u8>, k: int, j: int) -> bool {
    bit_of(samples[j / k], j % k)
}

/// The stream of bits that `samples` carry at bit width `k`.
pub open spec fn channel_stream(samples: Seq<u8>, k: int) -> Seq<bool> {
    Seq::new((samples.len() * k) as nat, |j: int| stream_bit(samples, k, j))
}

/// Bit `i` of channel `c` once `bits` are embedded at bit width `k`, where the
/// channel held `old` before: a bit of `bits` in the low `k` positions as long
/// as `bits` last, the bit of `old` everywhere else.
pub open spec fn embedded_bit(old: u8, bits: Seq<bool>, c: int, k: int, i: int) -> bool {
    if i < k && c * k + i < bits.len() {
        bits[c * k + i]
    } else {
        bit_of(old, i)
    }
}

/// Channel `c` once `bits` are embedded at bit width `k`.
pub open spec fn embedded_sample(old: u8, bits: Seq<bool>, c: int, k: int) -> u8 {
    byte_from_bits(|i: int| embedded_bit(old, bits, c, k, i))
}

/// The samples once `bits` are embedded at bit width `k`.
pub open spec fn embedded(samples: Seq<u8>, bits: Seq<bool>, k: int) -> Seq<u8> {
    Seq::new(samples.len(), |c: int| embedded_sample(samples[c], bits, c, k))
}

/// What embedding `payload` into `grid` at bit width `k` gives.
pub open spec fn embed_spec(grid: GridView, payload: Seq<u8>, k: int) -> Result<GridView, StegoError> {
    if grid.samples.len() == 0 {
        Err(StegoError::DegenerateInput)
    } else if bits_needed(payload.len()) > grid.samples.len() * k {
        Err(StegoError::CapacityExceeded)
    } else {
        Ok(GridView { samples: embedded(grid.samples, bits_of(framed(payload)), k), ..grid })
    }
}

/// What extracting from `grid` at bit width `k` gives.
pub open spec fn extract_spec(grid: GridView, k: int) -> Result<Seq<u8>, StegoError> {
    let stream = channel_stream(grid.samples, k);
    let announced = declared_length(bytes_of(stream, 4));
    if grid.samples.len() == 0 {
        Err(StegoError::DegenerateInput)
    } else if stream.len() < 32 {
        Err(StegoError::TruncatedStream)
    } else if 8 * (announced + 4) > stream.len() {
        Err(StegoError::LengthOverflow)
    } else {
        Ok(bytes_of(stream, 4 + announced).subrange(4, 4 + announced as int))
    }
}

proof fn lemma_stream_channel(j: int, k: int, n: int)
    requires
        0 < k,
        0 <= j < n * k,
    ensures
        0 <= j / k < n,
        0 <= j % k < k,
        (j / k) * k + j % k == j,
{
    lemma_fundamental_div_mod(j, k);
    lemma_mod_bound(j, k);
    lemma_mul_is_commutative(n, k);
    lemma_multiply_divide_lt(j, k, n);
    lemma_div_pos_is_pos(j, k);
    lemma_mul_is_commutative(j / k, k);
}

/// The stream of a grid with embedded bits starts with those bits.
pub proof fn lemma_stream_of_embedded(samples: Seq<u8>, bits: Seq<bool>, k: int, j: int)
    requires
        1 <= k <= 8,
        bits.len() <= samples.len() * k,
        0 <= j < bits.len(),
    ensures
        channel_stream(embedded(samples, bits, k), k)[j] == bits[j],
{
    lemma_stream_channel(j, k, samples.len() as int);
    let c = j / k;
    let i = j % k;
    lemma_byte_from_bits_bit(|b: int| embedded_bit(samples[c], bits, c, k, b), i);
}

/// Embedding leaves every bit above the low `k` of a channel, and every
/// channel past the last embedded bit, as it was.
pub proof fn lemma_embedded_keeps_the_rest(samples: Seq<u8>, bits: Seq<bool>, k: int, c: int)
    requires
        1 <= k <= 8,
        0 <= c < samples.len(),
    ensures
        forall|i: int| k <= i < 8 ==> bit_of(embedded(samples, bits, k)[c], i) == bit_of(samples[c], i),
        c * k >= bits.len() ==> embedded(samples, bits, k)[c] == samples[c],
{
    let f = |b: int| embedded_bit(samples[c], bits, c, k, b);
    assert forall|i: int| 0 <= i < 8 implies bit_of(embedded(samples, bits, k)[c], i) == f(i) by {
        lemma_byte_from_bits_bit(f, i);
    }
    if c * k >= bits.len() {
        lemma_byte_ext(embedded(samples, bits, k)[c], samples[c]);
    }
}

/// The stream of a grid with the bits of `wire` embedded spells out `wire`
/// first.
pub proof fn lemma_embedded_stream_spells(samples: Seq<u8>, wire: Seq<u8>, k: int, n: nat)
    requires
        1 <= k <= 8,
        8 * wire.len() <= samples.len() * k,
        n <= wire.len(),
    ensures
        bytes_of(channel_stream(embedded(samples, bits_of(wire), k), k), n) == wire.subrange(0, n as int),
{
    let bits = bits_of(wire);
    let stream = channel_stream(embedded(samples, bits, k), k);
    assert forall|j: int| 0 <= j < 8 * wire.len() implies stream[j] == bits[j] by {
        lemma_stream_of_embedded(samples, bits, k, j);
    }
    lemma_bytes_of_prefix(stream, wire, n);
}

/// Round trip: what was embedded at a bit width at which it fits is what
/// extracting at that bit width returns.
pub proof fn lemma_round_trip(grid: GridView, payload: Seq<u8>, k: int)
    requires
        grid.wf(),
        1 <= k <= 8,
        payload.len() <= u32::MAX,
        payload.len() <= capacity(grid.samples.len(), k),
    ensures
        embed_spec(grid, payload, k) is Ok,
        extract_spec(embed_spec(grid, payload, k)->Ok_0, k) == Ok::<Seq<u8>, StegoError>(payload),
{
    let n = grid.samples.len();
    let wire = framed(payload);
    let len = payload.len();
    lemma_capacity_in_bits(len, n, k);
    assert(n > 0) by {
        if n == 0 {
            lemma_mul_basics(k);
        }
    }
    lemma_framed_parts(payload);
    let after = GridView { samples: embedded(grid.samples, bits_of(wire), k), ..grid };
    lemma_embedded_stream_spells(grid.samples, wire, k, 4);
    lemma_embedded_stream_spells(grid.samples, wire, k, wire.len());
    lemma_extract_of_spelled(after, k, payload);
}

/// Capacity boundary: embedding at the planned bit width never runs out of
/// channels, and at every smaller bit width it does.
pub proof fn lemma_planned_width_is_the_boundary(grid: GridView, payload: Seq<u8>, j: int)
    requires
        grid.wf(),
        plan_spec(payload.len(), grid.samples.len()) is Ok,
    ensures
        embed_spec(grid, payload, plan_spec(payload.len(), grid.samples.len())->Ok_0) is Ok,
        1 <= j < plan_spec(payload.len(), grid.samples.len())->Ok_0 ==> embed_spec(grid, payload, j) == Err::<
            GridView,
            StegoError,
        >(StegoError::CapacityExceeded),
{
    lemma_plan_is_smallest(payload.len(), grid.samples.len(), j);
}

proof fn lemma_extract_of_spelled(grid: GridView, k: int, payload: Seq<u8>)
    requires
        grid.samples.len() > 0,
        8 * (payload.len() + 4) <= grid.samples.len() * k,
        declared_length(bytes_of(channel_stream(grid.samples, k), 4)) == payload.len(),
        bytes_of(channel_stream(grid.samples, k), 4 + payload.len()).subrange(4, 4 + payload.len() as int)
            == payload,
    ensures
        extract_spec(grid, k) == Ok::<Seq<u8>, StegoError>(payload),
{
}

/// Channel `c`, which held `old`, once the bits of `wire` are embedded at bit
/// width `k`.
fn embed_sample(old: u8, wire: &[u8], c: u64, k: u8) -> (v: u8)
    requires
        1 <= k <= 8,
        c <= MAX_CHANNELS,
        8 * wire@.len() <= u64::MAX,
    ensures
        v == embedded_sample(old, bits_of(wire@), c as int, k as int),
{
    let ghost bits = bits_of(wire@);
    let nbits: u64 = (wire.len() as u64) * 8;
    assert(c * k <= MAX_CHANNELS * 8) by (nonlinear_arith)
        requires
            c <= MAX_CHANNELS,
            k <= 8,
    ;
    let base: u64 = c * (k as u64);
    let mut v: u8 = old;
    let mut i: u8 = 0;
    while i < k
        invariant
            1 <= k <= 8,
            i <= k,
            base == c * k,
            base <= 8 * MAX_CHANNELS,
            nbits == 8 * wire@.len(),
            bits == bits_of(wire@),
            forall|b: int|
                0 <= b < 8 ==> bit_of(v, b) == if b < i {
                    embedded_bit(old, bits, c as int, k as int, b)
                } else {
                    bit_of(old, b)
                },
        decreases k - i,
    {
        let j: u64 = base + (i as u64);
        if j < nbits {
            let bit: bool = bit_at(wire, j);
            v = with_bit(v, i, bit);
        }
        i += 1;
    }
    proof {
        lemma_byte_from_bits_unique(v, |b: int| embedded_bit(old, bits, c as int, k as int, b));
    }
    v
}

/// Embeds `payload`, framed with its length, into a copy of `grid` at
/// `bit_width` bits per channel; `grid` itself is never changed.
///
/// Fails with `DegenerateInput` on a grid without pixels, and with
/// `CapacityExceeded` when the framed payload has more bits than the grid
/// offers at `bit_width`.
pub fn embed(grid: &PixelGrid, payload: &[u8], bit_width: BitWidth) -> (r: Result<PixelGrid, StegoError>)
    requires
        payload@.len() <= u32::MAX,
    ensures
        match r {
            Ok(g) => embed_spec(grid@, payload@, bit_width@) == Ok::<GridView, StegoError>(g@),
            Err(e) => embed_spec(grid@, payload@, bit_width@) == Err::<GridView, StegoError>(e),
        },
{
    let k: u8 = bit_width.get();
    let samples: &[u8] = grid.samples();
    let n: usize = samples.len();
    if n == 0 {
        return Err(StegoError::DegenerateInput);
    }
    let wire: Vec<u8> = frame_payload(payload);
    let needed: u64 = (wire.len() as u64) * 8;
    assert(n * k <= MAX_CHANNELS * 8) by (nonlinear_arith)
        requires
            n <= MAX_CHANNELS,
            k <= 8,
    ;
    let offered: u64 = (n as u64) * (k as u64);
    if needed > offered {
        return Err(StegoError::CapacityExceeded);
    }
    let ghost bits = bits_of(wire@);
    let mut out: Vec<u8> = Vec::new();
    let mut c: usize = 0;
    while c < n
        invariant
            1 <= k <= 8,
            n == samples@.len(),
            n <= MAX_CHANNELS,
            c <= n,
            8 * wire@.len() <= u64::MAX,
            bits == bits_of(wire@),
            out@.len() == c,
            forall|d: int| 0 <= d < c ==> out@[d] == embedded_sample(samples@[d], bits, d, k as int),
        decreases n - c,
    {
        let v: u8 = embed_sample(samples[c], wire.as_slice(), c as u64, k);
        out.push(v);
        c += 1;
    }
    assert(out@ =~= embedded(samples@, bits, k as int));
    Ok(grid.with_samples(out))
}

/// Embeds `payload` into a copy of `grid` at the smallest bit width at which
/// it fits, and returns the new grid with that bit width, which extracting
/// needs again.
///
/// Fails as planning does: with `DegenerateInput` on a grid without pixels, and
/// with `InsufficientCapacity` when the payload does not fit at 8 bits per
/// channel.
pub fn embed_planned(grid: &PixelGrid, payload: &[u8]) -> (r: Result<(PixelGrid, BitWidth), StegoError>)
    requires
        payload@.len() <= u32::MAX,
    ensures
        match r {
            Ok((g, w)) => {
                &&& plan_spec(payload@.len(), grid@.samples.len()) == Ok::<int, StegoError>(w@)
                &&& embed_spec(grid@, payload@, w@) == Ok::<GridView, StegoError>(g@)
            },
            Err(e) => plan_spec(payload@.len(), grid@.samples.len()) == Err::<int, StegoError>(e),
        },
{
    let planned = plan(payload.len() as u32, grid.channel_count());
    match planned {
        Ok(w) => {
            match embed(grid, payload, w) {
                Ok(g) => Ok((g, w)),
                Err(e) => {
                    proof {
                        lemma_planned_width_is_the_boundary(grid@, payload@, 0);
                    }
                    Err(e)
                },
            }
        },
        Err(e) => Err(e),
    }
}

/// Byte `m` of the stream that `samples` carry at bit width `k`.
fn read_byte(samples: &[u8], k: u8, m: u64) -> (v: u8)
    requires
        1 <= k <= 8,
        samples@.len() <= MAX_CHANNELS,
        8 * (m + 1) <= samples@.len() * k,
    ensures
        v == byte_from_bits(|i: int| channel_stream(samples@, k as int)[8 * m + i]),
{
    let ghost stream = channel_stream(samples@, k as int);
    assert(samples@.len() * k <= MAX_CHANNELS * 8) by (nonlinear_arith)
        requires
            samples@.len() <= MAX_CHANNELS,
            k <= 8,
    ;
    let mut v: u8 = 0;
    let mut i: u8 = 0;
    while i < 8
        invariant
            1 <= k <= 8,
            i <= 8,
            8 * (m + 1) <= samples@.len() * k,
            samples@.len() * k <= MAX_CHANNELS * 8,
            stream == channel_stream(samples@, k as int),
            forall|b: int| 0 <= b < i ==> bit_of(v, b) == stream[8 * m + b],
        decreases 8 - i,
    {
        let j: u64 = 8 * m + (i as u64);
        proof {
            lemma_stream_channel(j as int, k as int, samples@.len() as int);
        }
        let c: usize = (j / (k as u64)) as usize;
        let shift: u8 = (j % (k as u64)) as u8;
        let bit: bool = (samples[c] >> shift) & 1 == 1;
        v = with_bit(v, i, bit);
        i += 1;
    }
    proof {
        lemma_byte_from_bits_unique(v, |b: int| stream[8 * m + b]);
    }
    v
}

/// Reads the payload that was embedded into `grid` at `bit_width` bits per
/// channel.
///
/// Fails with `DegenerateInput` on a grid without pixels, with
/// `TruncatedStream` when the grid ends inside the length prefix, and with
/// `LengthOverflow` when the prefix announces more bytes than the grid holds at
/// `bit_width`. The announced length is held against the grid before any
/// payload byte is read, so a grid too short for its payload is always
/// reported as `LengthOverflow`.
pub fn extract(grid: &PixelGrid, bit_width: BitWidth) -> (r: Result<Vec<u8>, StegoError>)
    ensures
        match r {
            Ok(payload) => extract_spec(grid@, bit_width@) == Ok::<Seq<u8>, StegoError>(payload@),
            Err(e) => extract_spec(grid@, bit_width@) == Err::<Seq<u8>, StegoError>(e),
        },
{
    let k: u8 = bit_width.get();
    let samples: &[u8] = grid.samples();
    let n: usize = samples.len();
    if n == 0 {
        return Err(StegoError::DegenerateInput);
    }
    assert(n * k <= MAX_CHANNELS * 8) by (nonlinear_arith)
        requires
            n <= MAX_CHANNELS,
            k <= 8,
    ;
    let offered: u64 = (n as u64) * (k as u64);
    let ghost stream = channel_stream(samples@, k as int);
    if offered < 32 {
        return Err(StegoError::TruncatedStream);
    }
    let b0: u8 = read_byte(samples, k, 0);
    let b1: u8 = read_byte(samples, k, 1);
    let b2: u8 = read_byte(samples, k, 2);
    let b3: u8 = read_byte(samples, k, 3);
    assert(bytes_of(stream, 4) =~= seq![b0, b1, b2, b3]);
    let announced: u32 = read_length(b0, b1, b2, b3);
    let needed: u64 = (announced as u64 + LENGTH_PREFIX_BYTES) * 8;
    if needed > offered {
        return Err(StegoError::LengthOverflow);
    }
    let mut payload: Vec<u8> = Vec::new();
    let mut m: u64 = 0;
    while m < announced as u64
        invariant
            1 <= k <= 8,
            n == samples@.len(),
            n <= MAX_CHANNELS,
            m <= announced,
            8 * (announced + 4) <= n * k,
            stream == channel_stream(samples@, k as int),
            payload@.len() == m,
            forall|d: int| 0 <= d < m ==> payload@[d] == bytes_of(stream, (4 + announced) as nat)[4 + d],
        decreases announced - m,
    {
        let v: u8 = read_byte(samples, k, 4 + m);
        payload.push(v);
        m += 1;
    }
    assert(payload@ =~= bytes_of(stream, (4 + announced) as nat).subrange(4, 4 + announced));
    Ok(payload)
}

} // verus!
