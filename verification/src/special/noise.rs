//! Noise fields and the square images baked from them.
//!
//! The noise function itself is floating-point work and is handed in by the
//! caller as a sampler: a function from a configuration and a point of noise
//! space to a byte. Everything here holds for whatever the sampler returns.

use vstd::prelude::*;
use crate::common::{clamp_i64, clamped_add};

verus! {

/// Octaves of the noise field.
pub const OCTAVES: i32 = 4;

/// Amplitude of the noise field, in thousandths.
pub const AMPLITUDE: u32 = 50;

/// Lacunarity of the noise field, in thousandths.
pub const LACUNARITY: u32 = 3000;

/// Gain of the noise field, in thousandths.
pub const GAIN: u32 = 250;

/// The smallest value a sampler returns.
pub const RANGE_LOW: u8 = 0;

/// The largest value a sampler returns.
pub const RANGE_HIGH: u8 = 255;

/// What tells one noise field from another. The frequency is in millionths
/// and is used along both axes.
#[derive(Clone, Copy, Debug, PartialEq, Eq, Structural)]
pub struct NoiseConfig {
    pub seed: u64,
    pub frequency: u32,
}

/// A noise field that is configured on first use.
#[derive(Clone, Copy, Debug)]
pub struct Noise {
    noise: Option<NoiseConfig>,
}

/// A square grid of noise values.
#[derive(Debug)]
pub struct NoiseImage {
    size: u16,
    pixels: Vec<u8>,
}

/// Whether `sample` gives one value for each noise field and point.
pub open spec fn single_valued<F: Fn(NoiseConfig, i64, i64) -> u8>(sample: &F) -> bool {
    forall|c: NoiseConfig, x: i64, y: i64, a: u8, b: u8|
        #[trigger] call_ensures(sample, (c, x, y), a) && #[trigger] call_ensures(
            sample,
            (c, x, y),
            b,
        ) ==> a == b
}

/// Sampling is deterministic: the value of a field at a point is told by
/// the field's configuration and the point alone, so that two samplings of
/// fields with one configuration agree at every point, whenever the sampler
/// gives one value for each field and point.
pub proof fn lemma_sampling_repeats<F: Fn(NoiseConfig, i64, i64) -> u8>(
    first: Noise,
    second: Noise,
    sample: &F,
    x: i64,
    y: i64,
    a: u8,
    b: u8,
)
    requires
        single_valued(sample),
        first.config().is_some(),
        second.config() == first.config(),
        call_ensures(sample, (first.config().unwrap(), x, y), a),
        call_ensures(sample, (second.config().unwrap(), x, y), b),
    ensures
        a == b,
{
}

impl Noise {
    /// The configuration, once one is set.
    pub closed spec fn config(self) -> Option<NoiseConfig> {
        self.noise
    }

    /// A field without a configuration.
    #[must_use]
    pub fn new() -> (n: Self)
        ensures
            n.config().is_none(),
    {
        Self { noise: None }
    }

    /// Whether a configuration is set.
    pub fn is_set(&self) -> (b: bool)
        ensures
            b == self.config().is_some(),
    {
        self.noise.is_some()
    }

    /// Configures the field, replacing the configuration it had.
    pub fn set_noise(&mut self, seed: u64, frequency: u32)
        ensures
            final(self).config() == Some(NoiseConfig { seed, frequency }),
    {
        let new_noise = Self::gen_noise(seed, frequency);
        self.noise = Some(new_noise);
    }

    /// The configuration of a configured field.
    pub fn get(&self) -> (c: &NoiseConfig)
        requires
            self.config().is_some(),
        ensures
            *c == self.config().unwrap(),
    {
        self.noise.as_ref().unwrap()
    }

    /// The field's value at `(x, y)`.
    pub fn get_point<F: Fn(NoiseConfig, i64, i64) -> u8>(&self, x: i64, y: i64, sample: &F) -> (v: u8)
        requires
            self.config().is_some(),
            forall|c: NoiseConfig, a: i64, b: i64| call_requires(sample, (c, a, b)),
        ensures
            call_ensures(sample, (self.config().unwrap(), x, y), v),
    {
        let noise = *self.get();
        sample(noise, x, y)
    }

    fn gen_noise(seed: u64, frequency: u32) -> (c: NoiseConfig)
        ensures
            c == (NoiseConfig { seed, frequency }),
    {
        NoiseConfig { seed, frequency }
    }

    /// Bakes a `size` by `size` image: the pixel at `(x, y)` is the field's
    /// value at `(xoff + x, yoff + y)`.
    #[must_use]
    pub fn gen_image<F: Fn(NoiseConfig, i64, i64) -> u8>(
        size: u16,
        xoff: i64,
        yoff: i64,
        noise: &NoiseConfig,
        sample: &F,
    ) -> (image: NoiseImage)
        requires
            forall|c: NoiseConfig, a: i64, b: i64| call_requires(sample, (c, a, b)),
        ensures
            image.size() == size,
            forall|x: int, y: int|
                0 <= x < size && 0 <= y < size ==> call_ensures(
                    sample,
                    (*noise, clamp_i64(xoff + x), clamp_i64(yoff + y)),
                    #[trigger] image.pixel(x, y),
                ),
    {
        let mut pixels: Vec<u8> = Vec::new();
        let mut y: u16 = 0;
        while y < size
            invariant
                y <= size,
                pixels@.len() == y * size,
                forall|c: NoiseConfig, a: i64, b: i64| call_requires(sample, (c, a, b)),
                forall|i: int, j: int|
                    0 <= i < size && 0 <= j < y ==> call_ensures(
                        sample,
                        (*noise, clamp_i64(xoff + i), clamp_i64(yoff + j)),
                        #[trigger] pixels@[j * size + i],
                    ),
            decreases size - y,
        {
            let mut x: u16 = 0;
            while x < size
                invariant
                    x <= size,
                    y < size,
                    pixels@.len() == y * size + x,
                    forall|c: NoiseConfig, a: i64, b: i64| call_requires(sample, (c, a, b)),
                    forall|i: int, j: int|
                        0 <= i < size && 0 <= j < y ==> call_ensures(
                            sample,
                            (*noise, clamp_i64(xoff + i), clamp_i64(yoff + j)),
                            #[trigger] pixels@[j * size + i],
                        ),
                    forall|i: int|
                        0 <= i < x ==> call_ensures(
                            sample,
                            (*noise, clamp_i64(xoff + i), clamp_i64(yoff + y)),
                            #[trigger] pixels@[y * size + i],
                        ),
                decreases size - x,
            {
                let ghost before = pixels@;
                let color: u8 = sample(*noise, clamped_add(xoff, x as i64), clamped_add(yoff, y as i64));
                pixels.push(color);
                proof {
                    assert forall|i: int, j: int| 0 <= i < size && 0 <= j < y implies call_ensures(
                        sample,
                        (*noise, clamp_i64(xoff + i), clamp_i64(yoff + j)),
                        #[trigger] pixels@[j * size + i],
                    ) by {
                        lemma_cell_index(i, j, size as int, y as int);
                        assert(pixels@[j * size + i] == before[j * size + i]);
                    }
                }
                x += 1;
            }
            proof {
                assert((y + 1) * size == y * size + size) by (nonlinear_arith);
                assert forall|i: int, j: int|
                    0 <= i < size && 0 <= j < y + 1 implies call_ensures(
                    sample,
                    (*noise, clamp_i64(xoff + i), clamp_i64(yoff + j)),
                    #[trigger] pixels@[j * size + i],
                ) by {
                    if j == y {
                        assert(pixels@[y * size + i] == pixels@[j * size + i]);
                    }
                }
            }
            y += 1;
        }
        NoiseImage { size, pixels }
    }
}

/// A cell of an earlier row lies before the start of every later row.
pub proof fn lemma_cell_index(i: int, j: int, size: int, rows: int)
    requires
        0 <= i < size,
        0 <= j < rows,
    ensures
        0 <= j * size + i < rows * size,
{
    assert(j * size + i < rows * size) by (nonlinear_arith)
        requires
            0 <= i < size,
            0 <= j < rows,
    ;
    assert(0 <= j * size) by (nonlinear_arith)
        requires
            0 <= j,
            0 < size,
    ;
}

impl NoiseImage {
    #[verifier::type_invariant]
    spec fn well_formed(self) -> bool {
        self.pixels@.len() == self.size * self.size
    }

    /// Pixels along one side.
    pub closed spec fn size(self) -> u16 {
        self.size
    }

    /// The value stored at column `x` of row `y`.
    pub closed spec fn pixel(self, x: int, y: int) -> u8 {
        self.pixels@[y * self.size + x]
    }

    /// Pixels along one side.
    pub fn side(&self) -> (s: u16)
        ensures
            s == self.size(),
    {
        self.size
    }

    /// The value stored at column `x` of row `y`.
    pub fn get_pixel(&self, x: u32, y: u32) -> (v: u8)
        requires
            x < self.size(),
            y < self.size(),
        ensures
            v == self.pixel(x as int, y as int),
    {
        proof {
            use_type_invariant(self);
            lemma_cell_index(x as int, y as int, self.size as int, self.size as int);
            assert(y * self.size <= 0xffff * 0xffff) by (nonlinear_arith)
                requires
                    0 <= y <= 0xffff,
                    0 <= self.size <= 0xffff,
            ;
        }
        let at: usize = y as usize * self.size as usize + x as usize;
        self.pixels[at]
    }
}

} // verus!
