//! From finished elevations to colour-banded RGBA8 pixels.
//!
//! The caller squashes each elevation into a fraction between zero and one
//! and scales it to the byte range. The library picks the band from the
//! fraction, clamps the scaled value into a byte, and packs the pixel. The
//! fraction arrives as the bit pattern of a single-precision float: for
//! patterns without the sign bit, the order of the patterns as integers is
//! the order of the numbers they stand for, so the band limits are compared
//! as integers.

use crate::grid::Grid;
use vstd::prelude::*;

verus! {

/// The colour rule that a cell falls under.
#[derive(Debug, Clone, Copy, PartialEq, Eq, Structural)]
pub enum Band {
    /// Below 0.20: blue alone carries the value.
    Deep,
    /// From 0.20 up to, not including, 0.65: green alone carries the value.
    Mid,
    /// From 0.65 up to, not including, 0.90: grey at half the value.
    Transition,
    /// From 0.90 up: grey at the full value.
    Peak,
}

/// The bit pattern of 0.20, the lower limit of the mid band.
pub const MID_FROM_BITS: u32 = 0x3E4C_CCCD;

/// The bit pattern of 0.65, the lower limit of the transition band.
pub const TRANSITION_FROM_BITS: u32 = 0x3F26_6666;

/// The bit pattern of 0.90, the lower limit of the peak band.
pub const PEAK_FROM_BITS: u32 = 0x3F66_6666;

/// The least bit pattern with the sign bit set: negative zero.
pub const SIGN_BIT: u32 = 0x8000_0000;

/// The bit pattern of negative infinity, the greatest pattern of a negative
/// number. What lies above it is not a number.
pub const NEGATIVE_INFINITY_BITS: u32 = 0xFF80_0000;

/// The alpha of every pixel: opaque.
pub const OPAQUE: u8 = 255;

/// One squashed elevation on its way to a pixel.
#[derive(Debug, Clone, Copy, PartialEq, Eq, Structural)]
pub struct Sample {
    /// The squashed fraction, as the bit pattern of a single-precision float.
    pub fraction_bits: u32,
    /// The fraction times 255, rounded to the nearest integer.
    pub scaled: i32,
}

/// The band of a fraction. Each limit belongs to the band above it. A
/// negative number is below every limit; what is not a number is below none.
pub open spec fn band_of_bits(bits: u32) -> Band {
    if bits >= SIGN_BIT {
        if bits <= NEGATIVE_INFINITY_BITS {
            Band::Deep
        } else {
            Band::Peak
        }
    } else if bits < MID_FROM_BITS {
        Band::Deep
    } else if bits < TRANSITION_FROM_BITS {
        Band::Mid
    } else if bits < PEAK_FROM_BITS {
        Band::Transition
    } else {
        Band::Peak
    }
}

impl Band {
    /// The place of the band in the order from the lowest fractions to the
    /// highest.
    pub open spec fn rank(self) -> int {
        match self {
            Band::Deep => 0,
            Band::Mid => 1,
            Band::Transition => 2,
            Band::Peak => 3,
        }
    }
}

/// Among fractions without the sign bit, a greater one never falls into a
/// lower band, and the bands change at their limits and nowhere else.
pub proof fn lemma_bands_rise(low: u32, high: u32)
    requires
        low <= high < SIGN_BIT,
    ensures
        band_of_bits(low).rank() <= band_of_bits(high).rank(),
        band_of_bits(low) == band_of_bits(high) || low < MID_FROM_BITS <= high || low
            < TRANSITION_FROM_BITS <= high || low < PEAK_FROM_BITS <= high,
{
}

/// The byte nearest to a scaled value.
pub open spec fn clamped(scaled: int) -> int {
    if scaled < 0 {
        0
    } else if scaled > 255 {
        255
    } else {
        scaled
    }
}

/// Red, green, blue and alpha of a value in a band.
pub open spec fn banded(band: Band, value: u8) -> Seq<u8> {
    match band {
        Band::Deep => seq![0u8, 0u8, value, OPAQUE],
        Band::Mid => seq![0u8, value, 0u8, OPAQUE],
        Band::Transition => seq![value / 2, value / 2, value / 2, OPAQUE],
        Band::Peak => seq![value, value, value, OPAQUE],
    }
}

/// The four bytes of a sample's pixel.
pub open spec fn pixel_of(sample: Sample) -> Seq<u8> {
    banded(band_of_bits(sample.fraction_bits), clamped(sample.scaled as int) as u8)
}

/// The pixels of a run of samples, four bytes each, in the samples' order.
pub open spec fn pixels_of(samples: Seq<Sample>) -> Seq<u8> {
    Seq::new(4 * samples.len(), |i: int| pixel_of(samples[i / 4])[i % 4])
}

/// Picks the band of a fraction given by its bit pattern.
pub fn band(fraction_bits: u32) -> (band: Band)
    ensures
        band == band_of_bits(fraction_bits),
{
    if fraction_bits >= SIGN_BIT {
        if fraction_bits <= NEGATIVE_INFINITY_BITS {
            Band::Deep
        } else {
            Band::Peak
        }
    } else if fraction_bits < MID_FROM_BITS {
        Band::Deep
    } else if fraction_bits < TRANSITION_FROM_BITS {
        Band::Mid
    } else if fraction_bits < PEAK_FROM_BITS {
        Band::Transition
    } else {
        Band::Peak
    }
}

/// Clamps a scaled value into the byte range.
pub fn quantize(scaled: i32) -> (value: u8)
    ensures
        value == clamped(scaled as int),
{
    if scaled < 0 {
        0
    } else if scaled > 255 {
        255
    } else {
        scaled as u8
    }
}

/// Packs the pixel of one sample: red, green, blue, alpha.
pub fn pixel(sample: Sample) -> (bytes: [u8; 4])
    ensures
        bytes@ == pixel_of(sample),
{
    let value = quantize(sample.scaled);
    let bytes = match band(sample.fraction_bits) {
        Band::Deep => [0, 0, value, OPAQUE],
        Band::Mid => [0, value, 0, OPAQUE],
        Band::Transition => [value / 2, value / 2, value / 2, OPAQUE],
        Band::Peak => [value, value, value, OPAQUE],
    };
    assert(bytes@ =~= pixel_of(sample));
    bytes
}

/// Encodes a grid of samples as a flat RGBA8 buffer, cell after cell in the
/// grid's own row-major order: `size * size * 4` bytes.
pub fn pixel_buffer(grid: &Grid<Sample>) -> (bytes: Vec<u8>)
    requires
        grid.wf(),
    ensures
        bytes@ == pixels_of(grid@),
        bytes@.len() == grid.spec_size() * grid.spec_size() * 4,
{
    let samples = grid.cells();
    let mut bytes: Vec<u8> = Vec::new();
    let mut done: usize = 0;
    proof {
        grid.lemma_len();
    }
    while done < samples.len()
        invariant
            done <= samples@.len(),
            bytes@.len() == 4 * done,
            forall|i: int| 0 <= i < bytes@.len() ==> bytes@[i] == pixel_of(samples@[i / 4])[i % 4],
        decreases samples@.len() - done,
    {
        let px = pixel(samples[done]);
        bytes.push(px[0]);
        bytes.push(px[1]);
        bytes.push(px[2]);
        bytes.push(px[3]);
        done = done + 1;
    }
    assert(bytes@ =~= pixels_of(grid@));
    bytes
}

} // verus!
