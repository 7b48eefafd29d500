//! Making the low-order bit plane visible: each channel's masked low bits,
//! repeated upward until they fill the byte.

use crate::bits::{bit_of, byte_from_bits, lemma_byte_from_bits_unique, with_bit};
use crate::error::StegoError;
use crate::grid::{GridView, PixelGrid};
use vstd::prelude::*;

verus! {

/// The number of low-order bits that `mask` spans: the position of its highest
/// set bit, counted from 1, and 0 for the empty mask.
pub open spec fn mask_span(mask: u8) -> int {
    if mask == 0 {
        0
    } else if mask < 2 {
        1
    } else if mask < 4 {
        2
    } else if mask < 8 {
        3
    } else if mask < 16 {
        4
    } else if mask < 32 {
        5
    } else if mask < 64 {
        6
    } else if mask < 128 {
        7
    } else {
        8
    }
}

/// What `sample` looks like under `mask`: bit `i` of the result is bit
/// `i % mask_span(mask)` of `sample & mask`. Under the empty mask it is 0.
pub open spec fn rendered_sample(sample: u8, mask: u8) -> u8 {
    if mask == 0 {
        0
    } else {
        byte_from_bits(|i: int| bit_of(sample & mask, i % mask_span(mask)))
    }
}

/// What `samples` look like under `mask`.
pub open spec fn rendered(samples: Seq<u8>, mask: u8) -> Seq<u8> {
    Seq::new(samples.len(), |c: int| rendered_sample(samples[c], mask))
}

/// A one-bit plane renders as pure black or pure white.
pub proof fn lemma_one_bit_plane_is_black_or_white(sample: u8)
    ensures
        rendered_sample(sample, 1) == if bit_of(sample, 0) { 255u8 } else { 0u8 },
{
    let f = |i: int| bit_of(sample & 1, i % mask_span(1));
    let shade: u8 = if bit_of(sample, 0) { 255u8 } else { 0u8 };
    assert(((sample & 1) >> 0u8) & 1 == (sample >> 0u8) & 1) by (bit_vector);
    assert forall|i: int| 0 <= i < 8 implies bit_of(shade, i) == f(i) by {
        let s: u8 = i as u8;
        assert((255u8 >> s) & 1 == 1 && (0u8 >> s) & 1 == 0) by (bit_vector)
            requires
                s < 8,
        ;
    }
    lemma_byte_from_bits_unique(shade, f);
}

/// The number of low-order bits that `mask` spans.
fn span_of(mask: u8) -> (span: u8)
    ensures
        span == mask_span(mask),
{
    if mask == 0 {
        0
    } else if mask < 2 {
        1
    } else if mask < 4 {
        2
    } else if mask < 8 {
        3
    } else if mask < 16 {
        4
    } else if mask < 32 {
        5
    } else if mask < 64 {
        6
    } else if mask < 128 {
        7
    } else {
        8
    }
}

/// What `sample` looks like under `mask`, which spans `span` bits.
fn render_sample(sample: u8, mask: u8, span: u8) -> (v: u8)
    requires
        span == mask_span(mask),
    ensures
        v == rendered_sample(sample, mask),
{
    if mask == 0 {
        return 0;
    }
    let kept: u8 = sample & mask;
    let mut v: u8 = 0;
    let mut i: u8 = 0;
    while i < 8
        invariant
            i <= 8,
            1 <= span <= 8,
            span == mask_span(mask),
            kept == sample & mask,
            forall|b: int| 0 <= b < i ==> bit_of(v, b) == bit_of(kept, b % (span as int)),
        decreases 8 - i,
    {
        let bit: bool = (kept >> (i % span)) & 1 == 1;
        v = with_bit(v, i, bit);
        i += 1;
    }
    proof {
        lemma_byte_from_bits_unique(v, |b: int| bit_of(sample & mask, b % mask_span(mask)));
    }
    v
}

/// Renders the bit plane of `grid` that `mask` selects as a grid of the same
/// size: in each channel the masked bits, repeated upward to fill the byte.
///
/// Fails with `DegenerateInput` on a grid without pixels.
pub fn render_lsb_plane(grid: &PixelGrid, mask: u8) -> (r: Result<PixelGrid, StegoError>)
    ensures
        r is Err <==> grid@.samples.len() == 0,
        r matches Err(e) ==> e == StegoError::DegenerateInput,
        r matches Ok(g) ==> g@ == (GridView { samples: rendered(grid@.samples, mask), ..grid@ }),
{
    let samples: &[u8] = grid.samples();
    let n: usize = samples.len();
    if n == 0 {
        return Err(StegoError::DegenerateInput);
    }
    let span: u8 = span_of(mask);
    let mut out: Vec<u8> = Vec::new();
    let mut c: usize = 0;
    while c < n
        invariant
            n == samples@.len(),
            c <= n,
            span == mask_span(mask),
            out@.len() == c,
            forall|d: int| 0 <= d < c ==> out@[d] == rendered_sample(samples@[d], mask),
        decreases n - c,
    {
        let v: u8 = render_sample(samples[c], mask, span);
        out.push(v);
        c += 1;
    }
    assert(out@ =~= rendered(samples@, mask));
    Ok(grid.with_samples(out))
}

} // verus!
