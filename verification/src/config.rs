//! Configuration of encoders and decoders.
use vstd::prelude::*;

use crate::error::{DelpError, Result};

verus! {

/// Which Galois field to use for coefficient arithmetic.
#[derive(Debug, Clone, Copy, PartialEq, Eq, Structural, Default)]
pub enum Field {
    /// 8-bit coefficients: lower overhead per symbol, wider window.
    #[default]
    Gf2_8,
    /// 4-bit coefficients, two per byte.
    Gf2_4,
}

/// Which matrix construction generates the coefficients of coded packets.
///
/// | Strategy    | MDS guarantee | Max window | Notes                          |
/// |-------------|---------------|------------|--------------------------------|
/// | Vandermonde | none          | 254 (GF2^8)| lower cost per coefficient     |
/// | Cauchy      | proved        | 128 (GF2^8)| every square submatrix is regular |
#[derive(Debug, Clone, Copy, PartialEq, Eq, Structural, Default)]
pub enum MatrixStrategy {
    /// `coef(src, coded) = alpha^(src * coded)`.
    #[default]
    Vandermonde,
    /// `coef(src, coded) = 1 / (x_src + y_coded)` over disjoint points `x` and `y`.
    Cauchy,
}

/// What the encoder does with a new symbol while its window is full.
#[derive(Debug, Clone, Copy, PartialEq, Eq, Structural, Default)]
pub enum BackpressureMode {
    /// Return [`DelpError::WindowFull`]; the caller must retry.
    #[default]
    Reject,
    /// Evict the oldest symbol from the window and proceed.
    EvictOldest,
}

/// What an [`EncoderConfig`] or its builder holds.
pub struct EncoderParams {
    pub symbol_size: usize,
    pub window_capacity: usize,
    pub field: Field,
    pub fec_numer: usize,
    pub fec_denom: usize,
    pub backpressure: BackpressureMode,
    pub matrix_strategy: MatrixStrategy,
}

/// The largest symbol size.
pub const MAX_SYMBOL_SIZE: usize = 65_535;

/// The largest window over which a Cauchy matrix has distinct points.
pub open spec fn cauchy_max_window(f: Field) -> nat {
    match f {
        Field::Gf2_8 => 128,
        Field::Gf2_4 => 7,
    }
}

impl EncoderParams {
    /// What a new builder holds.
    pub open spec fn initial(symbol_size: usize) -> Self {
        EncoderParams {
            symbol_size,
            window_capacity: 256,
            field: Field::Gf2_8,
            fec_numer: 1,
            fec_denom: 4,
            backpressure: BackpressureMode::Reject,
            matrix_strategy: MatrixStrategy::Vandermonde,
        }
    }

    /// Why the parameters are refused, if they are.
    pub open spec fn rejection(self) -> Option<DelpError> {
        if self.symbol_size == 0 || self.symbol_size > MAX_SYMBOL_SIZE {
            Some(DelpError::InvalidSymbolSize(self.symbol_size))
        } else if self.window_capacity == 0 {
            Some(DelpError::InvalidWindowCapacity)
        } else if self.fec_denom == 0 {
            Some(DelpError::InvalidFecDenom)
        } else if self.matrix_strategy == MatrixStrategy::Cauchy && self.window_capacity
            > cauchy_max_window(self.field) {
            Some(DelpError::InvalidWindowCapacity)
        } else {
            None
        }
    }
}

/// Immutable configuration of an encoder, made by [`EncoderConfig::builder`].
#[derive(Debug)]
pub struct EncoderConfig {
    symbol_size: usize,
    window_capacity: usize,
    field: Field,
    fec_numer: usize,
    fec_denom: usize,
    backpressure: BackpressureMode,
    matrix_strategy: MatrixStrategy,
}

impl View for EncoderConfig {
    type V = EncoderParams;

    closed spec fn view(&self) -> EncoderParams {
        EncoderParams {
            symbol_size: self.symbol_size,
            window_capacity: self.window_capacity,
            field: self.field,
            fec_numer: self.fec_numer,
            fec_denom: self.fec_denom,
            backpressure: self.backpressure,
            matrix_strategy: self.matrix_strategy,
        }
    }
}

impl Clone for EncoderConfig {
    fn clone(&self) -> (r: Self)
        ensures
            r@ == self@,
    {
        proof {
            use_type_invariant(self);
        }
        EncoderConfig {
            symbol_size: self.symbol_size,
            window_capacity: self.window_capacity,
            field: self.field,
            fec_numer: self.fec_numer,
            fec_denom: self.fec_denom,
            backpressure: self.backpressure,
            matrix_strategy: self.matrix_strategy,
        }
    }
}

impl EncoderConfig {
    #[verifier::type_invariant]
    spec fn accepted(self) -> bool {
        self@.rejection() is None
    }

    /// Starts a configuration for symbols of `symbol_size` bytes.
    pub fn builder(symbol_size: usize) -> (r: EncoderConfigBuilder)
        ensures
            r@ == EncoderParams::initial(symbol_size),
    {
        EncoderConfigBuilder::new(symbol_size)
    }

    /// Length of every source symbol in bytes.
    pub fn symbol_size(&self) -> (r: usize)
        ensures
            r == self@.symbol_size,
            1 <= r <= MAX_SYMBOL_SIZE,
            self@.rejection() is None,
    {
        proof {
            use_type_invariant(self);
        }
        self.symbol_size
    }

    /// The largest number of source symbols in the encoding window.
    pub fn window_capacity(&self) -> (r: usize)
        ensures
            r == self@.window_capacity,
            r >= 1,
            self@.rejection() is None,
    {
        proof {
            use_type_invariant(self);
        }
        self.window_capacity
    }

    /// The field of the coefficients.
    pub fn field(&self) -> (r: Field)
        ensures
            r == self@.field,
    {
        self.field
    }

    /// Numerator of the base FEC rate.
    pub fn fec_numer(&self) -> (r: usize)
        ensures
            r == self@.fec_numer,
    {
        self.fec_numer
    }

    /// Denominator of the base FEC rate.
    pub fn fec_denom(&self) -> (r: usize)
        ensures
            r == self@.fec_denom,
            r >= 1,
    {
        proof {
            use_type_invariant(self);
        }
        self.fec_denom
    }

    /// What happens while the window is full.
    pub fn backpressure(&self) -> (r: BackpressureMode)
        ensures
            r == self@.backpressure,
    {
        self.backpressure
    }

    /// The construction of the coefficient matrix.
    pub fn matrix_strategy(&self) -> (r: MatrixStrategy)
        ensures
            r == self@.matrix_strategy,
    {
        self.matrix_strategy
    }
}

/// Builder for [`EncoderConfig`].
#[derive(Debug)]
pub struct EncoderConfigBuilder {
    symbol_size: usize,
    window_capacity: usize,
    field: Field,
    fec_numer: usize,
    fec_denom: usize,
    backpressure: BackpressureMode,
    matrix_strategy: MatrixStrategy,
}

impl View for EncoderConfigBuilder {
    type V = EncoderParams;

    closed spec fn view(&self) -> EncoderParams {
        EncoderParams {
            symbol_size: self.symbol_size,
            window_capacity: self.window_capacity,
            field: self.field,
            fec_numer: self.fec_numer,
            fec_denom: self.fec_denom,
            backpressure: self.backpressure,
            matrix_strategy: self.matrix_strategy,
        }
    }
}

impl EncoderConfigBuilder {
    fn new(symbol_size: usize) -> (r: Self)
        ensures
            r@ == EncoderParams::initial(symbol_size),
    {
        Self {
            symbol_size,
            window_capacity: 256,
            field: Field::Gf2_8,
            fec_numer: 1,
            fec_denom: 4,
            backpressure: BackpressureMode::Reject,
            matrix_strategy: MatrixStrategy::Vandermonde,
        }
    }

    /// The largest number of source symbols in the encoding window (default 256).
    pub fn window_capacity(self, n: usize) -> (r: Self)
        ensures
            r@ == (EncoderParams { window_capacity: n, ..self@ }),
    {
        let mut b = self;
        b.window_capacity = n;
        b
    }

    /// The field of the coefficients (default `Gf2_8`).
    pub fn field(self, f: Field) -> (r: Self)
        ensures
            r@ == (EncoderParams { field: f, ..self@ }),
    {
        let mut b = self;
        b.field = f;
        b
    }

    /// The base FEC redundancy `numer / denom`: `fec_rate(1, 4)` means one coded
    /// packet per four source packets.
    pub fn fec_rate(self, numer: usize, denom: usize) -> (r: Self)
        ensures
            r@ == (EncoderParams { fec_numer: numer, fec_denom: denom, ..self@ }),
    {
        let mut b = self;
        b.fec_numer = numer;
        b.fec_denom = denom;
        b
    }

    /// What happens while the window is full (default `Reject`).
    pub fn backpressure(self, mode: BackpressureMode) -> (r: Self)
        ensures
            r@ == (EncoderParams { backpressure: mode, ..self@ }),
    {
        let mut b = self;
        b.backpressure = mode;
        b
    }

    /// The construction of the coefficient matrix (default `Vandermonde`).
    pub fn matrix_strategy(self, s: MatrixStrategy) -> (r: Self)
        ensures
            r@ == (EncoderParams { matrix_strategy: s, ..self@ }),
    {
        let mut b = self;
        b.matrix_strategy = s;
        b
    }

    /// Validates the parameters and makes the configuration.
    pub fn build(self) -> (r: Result<EncoderConfig>)
        ensures
            match r {
                Ok(c) => self@.rejection() is None && c@ == self@,
                Err(e) => self@.rejection() == Some(e),
            },
    {
        if self.symbol_size == 0 || self.symbol_size > MAX_SYMBOL_SIZE {
            return Err(DelpError::InvalidSymbolSize(self.symbol_size));
        }
        if self.window_capacity == 0 {
            return Err(DelpError::InvalidWindowCapacity);
        }
        if self.fec_denom == 0 {
            return Err(DelpError::InvalidFecDenom);
        }
        if self.matrix_strategy == MatrixStrategy::Cauchy {
            let cauchy_max: usize = match self.field {
                Field::Gf2_8 => 128,
                Field::Gf2_4 => 7,
            };
            if self.window_capacity > cauchy_max {
                return Err(DelpError::InvalidWindowCapacity);
            }
        }
        Ok(
            EncoderConfig {
                symbol_size: self.symbol_size,
                window_capacity: self.window_capacity,
                field: self.field,
                fec_numer: self.fec_numer,
                fec_denom: self.fec_denom,
                backpressure: self.backpressure,
                matrix_strategy: self.matrix_strategy,
            },
        )
    }
}

/// What a [`DecoderConfig`] or its builder holds.
pub struct DecoderParams {
    pub symbol_size: usize,
    pub field: Field,
    pub max_matrix_rows: usize,
    pub feedback_every: u32,
}

impl DecoderParams {
    /// What a new builder holds.
    pub open spec fn initial(symbol_size: usize) -> Self {
        DecoderParams {
            symbol_size,
            field: Field::Gf2_8,
            max_matrix_rows: 512,
            feedback_every: 16,
        }
    }

    /// Why the parameters are refused, if they are.
    pub open spec fn rejection(self) -> Option<DelpError> {
        if self.symbol_size == 0 || self.symbol_size > MAX_SYMBOL_SIZE {
            Some(DelpError::InvalidSymbolSize(self.symbol_size))
        } else {
            None
        }
    }
}

/// Immutable configuration of a decoder.
///
/// `symbol_size` and `field` must be those of the paired encoder.
#[derive(Debug)]
pub struct DecoderConfig {
    symbol_size: usize,
    field: Field,
    max_matrix_rows: usize,
    feedback_every: u32,
}

impl View for DecoderConfig {
    type V = DecoderParams;

    closed spec fn view(&self) -> DecoderParams {
        DecoderParams {
            symbol_size: self.symbol_size,
            field: self.field,
            max_matrix_rows: self.max_matrix_rows,
            feedback_every: self.feedback_every,
        }
    }
}

impl Clone for DecoderConfig {
    fn clone(&self) -> (r: Self)
        ensures
            r@ == self@,
    {
        proof {
            use_type_invariant(self);
        }
        DecoderConfig {
            symbol_size: self.symbol_size,
            field: self.field,
            max_matrix_rows: self.max_matrix_rows,
            feedback_every: self.feedback_every,
        }
    }
}

impl DecoderConfig {
    #[verifier::type_invariant]
    spec fn accepted(self) -> bool {
        self@.rejection() is None
    }

    /// Starts a configuration for symbols of `symbol_size` bytes.
    pub fn builder(symbol_size: usize) -> (r: DecoderConfigBuilder)
        ensures
            r@ == DecoderParams::initial(symbol_size),
    {
        DecoderConfigBuilder::new(symbol_size)
    }

    /// Length of every source symbol in bytes.
    pub fn symbol_size(&self) -> (r: usize)
        ensures
            r == self@.symbol_size,
            1 <= r <= MAX_SYMBOL_SIZE,
            self@.rejection() is None,
    {
        proof {
            use_type_invariant(self);
        }
        self.symbol_size
    }

    /// The field of the coefficients.
    pub fn field(&self) -> (r: Field)
        ensures
            r == self@.field,
    {
        self.field
    }

    /// The largest number of coded equations held at once.
    pub fn max_matrix_rows(&self) -> (r: usize)
        ensures
            r == self@.max_matrix_rows,
    {
        self.max_matrix_rows
    }

    /// A feedback packet is due after this many received packets.
    pub fn feedback_every(&self) -> (r: u32)
        ensures
            r == self@.feedback_every,
    {
        self.feedback_every
    }
}

/// Builder for [`DecoderConfig`].
#[derive(Debug)]
pub struct DecoderConfigBuilder {
    symbol_size: usize,
    field: Field,
    max_matrix_rows: usize,
    feedback_every: u32,
}

impl View for DecoderConfigBuilder {
    type V = DecoderParams;

    closed spec fn view(&self) -> DecoderParams {
        DecoderParams {
            symbol_size: self.symbol_size,
            field: self.field,
            max_matrix_rows: self.max_matrix_rows,
            feedback_every: self.feedback_every,
        }
    }
}

impl DecoderConfigBuilder {
    fn new(symbol_size: usize) -> (r: Self)
        ensures
            r@ == DecoderParams::initial(symbol_size),
    {
        Self { symbol_size, field: Field::Gf2_8, max_matrix_rows: 512, feedback_every: 16 }
    }

    /// The field of the coefficients (default `Gf2_8`).
    pub fn field(self, f: Field) -> (r: Self)
        ensures
            r@ == (DecoderParams { field: f, ..self@ }),
    {
        let mut b = self;
        b.field = f;
        b
    }

    /// The largest number of coded equations held at once (default 512).
    pub fn max_matrix_rows(self, n: usize) -> (r: Self)
        ensures
            r@ == (DecoderParams { max_matrix_rows: n, ..self@ }),
    {
        let mut b = self;
        b.max_matrix_rows = n;
        b
    }

    /// How many received packets make a feedback packet due (default 16).
    pub fn feedback_every(self, n: u32) -> (r: Self)
        ensures
            r@ == (DecoderParams { feedback_every: n, ..self@ }),
    {
        let mut b = self;
        b.feedback_every = n;
        b
    }

    /// Validates the parameters and makes the configuration.
    pub fn build(self) -> (r: Result<DecoderConfig>)
        ensures
            match r {
                Ok(c) => self@.rejection() is None && c@ == self@,
                Err(e) => self@.rejection() == Some(e),
            },
    {
        if self.symbol_size == 0 || self.symbol_size > MAX_SYMBOL_SIZE {
            return Err(DelpError::InvalidSymbolSize(self.symbol_size));
        }
        Ok(
            DecoderConfig {
                symbol_size: self.symbol_size,
                field: self.field,
                max_matrix_rows: self.max_matrix_rows,
                feedback_every: self.feedback_every,
            },
        )
    }
}

/// A decoder configuration with the symbol size and the field of an encoder's.
impl From<&EncoderConfig> for DecoderConfigBuilder {
    fn from(enc: &EncoderConfig) -> (r: Self) {
        DecoderConfigBuilder::new(enc.symbol_size).field(enc.field)
    }
}

impl vstd::std_specs::convert::FromSpecImpl<&EncoderConfig> for DecoderConfigBuilder {
    open spec fn obeys_from_spec() -> bool {
        true
    }

    closed spec fn from_spec(enc: &EncoderConfig) -> Self {
        DecoderConfigBuilder {
            symbol_size: enc.symbol_size,
            field: enc.field,
            max_matrix_rows: 512,
            feedback_every: 16,
        }
    }
}

/// A builder derived from an encoder's configuration is always accepted, and
/// has the encoder's symbol size and field.
pub proof fn lemma_derived_decoder_config(enc: &EncoderConfig)
    requires
        enc@.rejection() is None,
    ensures
        <DecoderConfigBuilder as vstd::std_specs::convert::FromSpec<&EncoderConfig>>::from_spec(
            enc,
        )@ == (DecoderParams {
            field: enc@.field,
            ..DecoderParams::initial(enc@.symbol_size)
        }),
        <DecoderConfigBuilder as vstd::std_specs::convert::FromSpec<&EncoderConfig>>::from_spec(
            enc,
        )@.rejection() is None,
{
}

// ── What is accepted ─────────────────────────────────────────────────────

/// An encoder's parameters are accepted exactly where a symbol has 1 to 65535 bytes,
/// the window has room, the rate has a denominator, and a Cauchy window has at most 128
/// symbols, or 7 over the small field.  The first of these that fails is reported.
pub proof fn lemma_encoder_accepted(p: EncoderParams)
    ensures
        ({
            let size_ok = 1 <= p.symbol_size <= 65535;
            let room_ok = p.window_capacity >= 1;
            let rate_ok = p.fec_denom >= 1;
            let points: int = if p.field == Field::Gf2_8 { 128 } else { 7 };
            let points_ok = p.matrix_strategy == MatrixStrategy::Vandermonde || p.window_capacity
                <= points;
            &&& p.rejection() is None <==> size_ok && room_ok && rate_ok && points_ok
            &&& p.rejection() matches Some(e) ==> match e {
                DelpError::InvalidSymbolSize(n) => !size_ok && n == p.symbol_size,
                DelpError::InvalidWindowCapacity => size_ok && (!room_ok || (rate_ok
                    && !points_ok)),
                DelpError::InvalidFecDenom => size_ok && room_ok && !rate_ok,
                _ => false,
            }
        }),
{
}

/// A decoder's parameters are accepted exactly where a symbol has 1 to 65535 bytes.
pub proof fn lemma_decoder_accepted(p: DecoderParams)
    ensures
        p.rejection() is None <==> 1 <= p.symbol_size <= 65535,
        p.rejection() matches Some(e) ==> e == DelpError::InvalidSymbolSize(p.symbol_size),
{
}

/// What holds where nothing else was asked for: a window of 256 symbols, one coded
/// packet per four symbols, the large field, Vandermonde coefficients, and rejection of
/// symbols that find the window full; 512 equations, and feedback after 16 packets.
pub proof fn lemma_defaults(size: usize)
    ensures
        EncoderParams::initial(size) == (EncoderParams {
            symbol_size: size,
            window_capacity: 256,
            field: Field::Gf2_8,
            fec_numer: 1,
            fec_denom: 4,
            backpressure: BackpressureMode::Reject,
            matrix_strategy: MatrixStrategy::Vandermonde,
        }),
        DecoderParams::initial(size) == (DecoderParams {
            symbol_size: size,
            field: Field::Gf2_8,
            max_matrix_rows: 512,
            feedback_every: 16,
        }),
{
}

} // verus!
