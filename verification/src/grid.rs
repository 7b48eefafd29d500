//! The pixel grid that the codec writes to and the analysers read, and the
//! number of low-order bits of each channel that carry data.

use vstd::prelude::*;

verus! {

/// The largest number of channel samples in a grid. With at most 8 bits taken
/// from each sample, every bit of a grid has an index below `2^64`.
pub const MAX_CHANNELS: u64 = 0x1fff_ffff_ffff_ffff;

/// How many low-order bits of each channel carry data: between 1 and 8.
#[derive(Clone, Copy, Debug, PartialEq, Eq, Structural)]
pub struct BitWidth {
    bits: u8,
}

impl View for BitWidth {
    type V = int;

    closed spec fn view(&self) -> int {
        self.bits as int
    }
}

impl BitWidth {
    #[verifier::type_invariant]
    spec fn in_range(self) -> bool {
        1 <= self.bits <= 8
    }

    /// The bit width `bits`, if it lies between 1 and 8.
    pub fn new(bits: u8) -> (r: Option<BitWidth>)
        ensures
            r is Some <==> 1 <= bits <= 8,
            r matches Some(w) ==> w@ == bits,
    {
        if 1 <= bits && bits <= 8 {
            Some(BitWidth { bits })
        } else {
            None
        }
    }

    /// The number of bits.
    pub fn get(&self) -> (bits: u8)
        ensures
            bits == self@,
            1 <= bits <= 8,
    {
        proof {
            use_type_invariant(self);
        }
        self.bits
    }

    /// The byte with the low `self` bits set.
    pub fn mask(&self) -> (m: u8)
        ensures
            m == low_mask(self@),
    {
        proof {
            use_type_invariant(self);
        }
        let k: u8 = self.bits;
        assert((0xffu8 >> ((8 - k) as u8)) as int == low_mask(k as int)) by {
            assert(0xffu8 >> 7u8 == 1 && 0xffu8 >> 6u8 == 3 && 0xffu8 >> 5u8 == 7 && 0xffu8 >> 4u8 == 15
                && 0xffu8 >> 3u8 == 31 && 0xffu8 >> 2u8 == 63 && 0xffu8 >> 1u8 == 127 && 0xffu8 >> 0u8
                == 255) by (bit_vector);
        }
        0xffu8 >> (8 - k)
    }
}

/// The byte with the low `k` bits set, for `k` from 1 to 8.
pub open spec fn low_mask(k: int) -> u8 {
    if k == 1 {
        1
    } else if k == 2 {
        3
    } else if k == 3 {
        7
    } else if k == 4 {
        15
    } else if k == 5 {
        31
    } else if k == 6 {
        63
    } else if k == 7 {
        127
    } else {
        255
    }
}

/// What a grid is: its size in pixels and its samples, row by row, three to a
/// pixel in the order red, green, blue.
pub struct GridView {
    pub width: nat,
    pub height: nat,
    pub samples: Seq<u8>,
}

impl GridView {
    /// The samples are exactly those of `width * height` pixels, and no more
    /// than `MAX_CHANNELS`.
    pub open spec fn wf(self) -> bool {
        &&& self.samples.len() == 3 * self.width * self.height
        &&& self.samples.len() <= MAX_CHANNELS
    }

    /// The position among the samples of channel `channel` of the pixel in
    /// column `x` of row `y`.
    pub open spec fn index_of(self, x: int, y: int, channel: int) -> int {
        3 * (y * self.width + x) + channel
    }
}

/// A rectangular grid of RGB pixels with 8 bits per channel.
#[derive(Debug)]
pub struct PixelGrid {
    width: u32,
    height: u32,
    samples: Vec<u8>,
}

impl View for PixelGrid {
    type V = GridView;

    closed spec fn view(&self) -> GridView {
        GridView { width: self.width as nat, height: self.height as nat, samples: self.samples@ }
    }
}

impl PixelGrid {
    #[verifier::type_invariant]
    spec fn well_formed(self) -> bool {
        self@.wf()
    }

    /// The grid of `width` by `height` pixels over `samples`, if `samples`
    /// holds three values for each pixel and no more than `MAX_CHANNELS` in all.
    pub fn new(width: u32, height: u32, samples: Vec<u8>) -> (r: Option<PixelGrid>)
        ensures
            r is Some <==> samples@.len() == 3 * width * height && samples@.len() <= MAX_CHANNELS,
            r matches Some(g) ==> g@ == (GridView {
                width: width as nat,
                height: height as nat,
                samples: samples@,
            }),
    {
        assert(width * height <= 0xffff_ffff * 0xffff_ffff) by (nonlinear_arith)
            requires
                width <= 0xffff_ffff,
                height <= 0xffff_ffff,
        ;
        assert(3 * width * height == 3 * (width * height)) by (nonlinear_arith);
        let pixels: u64 = (width as u64) * (height as u64);
        let len: u64 = samples.len() as u64;
        if len > MAX_CHANNELS || len % 3 != 0 || len / 3 != pixels {
            None
        } else {
            Some(PixelGrid { width, height, samples })
        }
    }

    /// The number of pixels in a row.
    pub fn width(&self) -> (w: u32)
        ensures
            w == self@.width,
    {
        self.width
    }

    /// The number of rows.
    pub fn height(&self) -> (h: u32)
        ensures
            h == self@.height,
    {
        self.height
    }

    /// The number of channel samples: three for each pixel.
    pub fn channel_count(&self) -> (n: usize)
        ensures
            n == self@.samples.len(),
            self@.wf(),
    {
        proof {
            use_type_invariant(self);
        }
        self.samples.len()
    }

    /// The samples, row by row, three to a pixel.
    pub fn samples(&self) -> (s: &[u8])
        ensures
            s@ == self@.samples,
            self@.wf(),
    {
        proof {
            use_type_invariant(self);
        }
        self.samples.as_slice()
    }

    /// The red, green and blue samples of the pixel in column `x` of row `y`,
    /// or `None` when the grid has no such pixel.
    pub fn pixel(&self, x: u32, y: u32) -> (r: Option<[u8; 3]>)
        ensures
            r is Some <==> x < self@.width && y < self@.height,
            r matches Some(p) ==> {
                &&& p[0] == self@.samples[self@.index_of(x as int, y as int, 0)]
                &&& p[1] == self@.samples[self@.index_of(x as int, y as int, 1)]
                &&& p[2] == self@.samples[self@.index_of(x as int, y as int, 2)]
            },
    {
        proof {
            use_type_invariant(self);
        }
        if x >= self.width || y >= self.height {
            return None;
        }
        assert(y * self.width + x < self.width * self.height) by (nonlinear_arith)
            requires
                x < self.width,
                y < self.height,
        ;
        assert(3 * self.width * self.height == 3 * (self.width * self.height)) by (nonlinear_arith);
        assert(self.samples@.len() == 3 * (self.width * self.height));
        let at: u64 = (y as u64) * (self.width as u64) + (x as u64);
        let n: usize = self.samples.len();
        assert(3 * at + 3 <= n);
        let base: usize = (3 * at) as usize;
        let p: [u8; 3] = [self.samples[base], self.samples[base + 1], self.samples[base + 2]];
        assert(self@.index_of(x as int, y as int, 0) == base);
        Some(p)
    }

    /// A grid of the same size over other samples.
    pub(crate) fn with_samples(&self, samples: Vec<u8>) -> (g: PixelGrid)
        requires
            samples@.len() == self@.samples.len(),
        ensures
            g@ == (GridView { samples: samples@, ..self@ }),
    {
        proof {
            use_type_invariant(self);
        }
        PixelGrid { width: self.width, height: self.height, samples }
    }

    /// Gives up the grid for its samples.
    pub fn into_samples(self) -> (s: Vec<u8>)
        ensures
            s@ == self@.samples,
    {
        self.samples
    }
}

} // verus!
