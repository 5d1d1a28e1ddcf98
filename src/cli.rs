use vstd::prelude::*;

verus! {

/// The run's configuration: exemplar path, pattern size, output size, and
/// whether quarter turns of the patterns are added.
#[derive(Debug, Clone, Default)]
pub struct Args {
    pub img_path: String,
    pub n_dimensions: usize,
    pub width: usize,
    pub height: usize,
    pub rotation: bool,
}

/// Why a configuration cannot be run.
#[derive(Debug, Clone, Copy, PartialEq, Eq, Structural)]
pub enum ConfigError {
    /// The pattern size is zero.
    PatternSize,
    /// The output has no cells.
    OutputSize,
    /// The exemplar has no pixels.
    EmptyExemplar,
    /// A size is too large for the engine's integer types.
    TooLarge,
}

/// Largest exemplar, in pixels, whose patterns (four per pixel with quarter
/// turns) can be counted in 32 bits.
pub const MAX_EXEMPLAR_PIXELS: usize = 0x3fff_ffff;

/// Largest side of an exemplar, a pattern or the output.
pub const MAX_SIDE: usize = 0x3fff_ffff;

/// Whether a run with pattern size `n`, output `width` × `height` and an
/// exemplar of `ew` × `eh` pixels is within what the engine handles.
pub open spec fn config_ok(n: nat, width: nat, height: nat, ew: nat, eh: nat) -> bool {
    &&& 1 <= n <= 0xffff
    &&& 1 <= width <= MAX_SIDE
    &&& 1 <= height <= MAX_SIDE
    &&& width * height <= usize::MAX
    &&& 1 <= ew <= MAX_SIDE
    &&& 1 <= eh <= MAX_SIDE
    &&& ew * eh <= MAX_EXEMPLAR_PIXELS
}

impl Args {
    /// Checks the configuration against an exemplar of `ew` × `eh` pixels,
    /// naming the first problem found.
    pub fn validate(&self, ew: usize, eh: usize) -> (r: Result<(), ConfigError>)
        ensures
            r.is_ok() <==> config_ok(
                self.n_dimensions as nat,
                self.width as nat,
                self.height as nat,
                ew as nat,
                eh as nat,
            ),
            r == Err::<(), ConfigError>(ConfigError::PatternSize) <==> self.n_dimensions == 0,
            r == Err::<(), ConfigError>(ConfigError::OutputSize) <==> self.n_dimensions != 0 && (
            self.width == 0 || self.height == 0),
            r == Err::<(), ConfigError>(ConfigError::EmptyExemplar) <==> self.n_dimensions != 0
                && self.width != 0 && self.height != 0 && (ew == 0 || eh == 0),
    {
        if self.n_dimensions == 0 {
            return Err(ConfigError::PatternSize);
        }
        if self.width == 0 || self.height == 0 {
            return Err(ConfigError::OutputSize);
        }
        if ew == 0 || eh == 0 {
            return Err(ConfigError::EmptyExemplar);
        }
        if self.n_dimensions > 0xffff || self.width > MAX_SIDE || self.height > MAX_SIDE
            || ew > MAX_SIDE || eh > MAX_SIDE {
            return Err(ConfigError::TooLarge);
        }
        if self.width > usize::MAX / self.height || ew > MAX_EXEMPLAR_PIXELS / eh {
            proof {
                if self.width > usize::MAX / self.height {
                    assert(self.width * self.height > usize::MAX) by (nonlinear_arith)
                        requires
                            self.width > usize::MAX / self.height,
                            self.height >= 1,
                    ;
                } else {
                    assert(ew * eh > MAX_EXEMPLAR_PIXELS) by (nonlinear_arith)
                        requires
                            ew > MAX_EXEMPLAR_PIXELS / eh,
                            eh >= 1,
                    ;
                }
            }
            return Err(ConfigError::TooLarge);
        }
        proof {
            assert(self.width * self.height <= usize::MAX) by (nonlinear_arith)
                requires
                    self.width <= usize::MAX / self.height,
                    self.height >= 1,
            ;
            assert(ew * eh <= MAX_EXEMPLAR_PIXELS) by (nonlinear_arith)
                requires
                    ew <= MAX_EXEMPLAR_PIXELS / eh,
                    eh >= 1,
            ;
        }
        Ok(())
    }
}

} // verus!
