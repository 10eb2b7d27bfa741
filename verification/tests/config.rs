use delp::{BackpressureMode, DecoderConfig, DelpError, EncoderConfig, Field, MatrixStrategy};

#[test]
fn encoder_defaults() {
    let cfg = EncoderConfig::builder(100).build().unwrap();
    assert_eq!(cfg.symbol_size(), 100);
    assert_eq!(cfg.window_capacity(), 256);
    assert!(cfg.field() == Field::Gf2_8);
    assert_eq!((cfg.fec_numer(), cfg.fec_denom()), (1, 4));
    assert!(cfg.backpressure() == BackpressureMode::Reject);
    assert!(cfg.matrix_strategy() == MatrixStrategy::Vandermonde);
}

#[test]
fn encoder_limits() {
    for size in [0usize, 65_536] {
        assert!(matches!(
            EncoderConfig::builder(size).build(),
            Err(DelpError::InvalidSymbolSize(s)) if s == size
        ));
    }
    assert!(EncoderConfig::builder(65_535).build().is_ok());
    assert!(matches!(
        EncoderConfig::builder(8).window_capacity(0).build(),
        Err(DelpError::InvalidWindowCapacity)
    ));
    assert!(matches!(
        EncoderConfig::builder(8).fec_rate(1, 0).build(),
        Err(DelpError::InvalidFecDenom)
    ));
    let cauchy = EncoderConfig::builder(8).matrix_strategy(MatrixStrategy::Cauchy);
    assert!(matches!(
        cauchy.window_capacity(129).build(),
        Err(DelpError::InvalidWindowCapacity)
    ));
    let cauchy = EncoderConfig::builder(8).matrix_strategy(MatrixStrategy::Cauchy);
    assert!(cauchy.window_capacity(128).build().is_ok());
    let small = EncoderConfig::builder(8).matrix_strategy(MatrixStrategy::Cauchy).field(Field::Gf2_4);
    assert!(small.window_capacity(7).build().is_ok());
    let small = EncoderConfig::builder(8).matrix_strategy(MatrixStrategy::Cauchy).field(Field::Gf2_4);
    assert!(matches!(
        small.window_capacity(8).build(),
        Err(DelpError::InvalidWindowCapacity)
    ));
}

#[test]
fn decoder_defaults_and_limits() {
    let cfg = DecoderConfig::builder(64).build().unwrap();
    assert_eq!(cfg.symbol_size(), 64);
    assert!(cfg.field() == Field::Gf2_8);
    assert_eq!(cfg.max_matrix_rows(), 512);
    assert_eq!(cfg.feedback_every(), 16);
    let cfg = DecoderConfig::builder(64)
        .field(Field::Gf2_4)
        .max_matrix_rows(3)
        .feedback_every(5)
        .build()
        .unwrap();
    assert!(cfg.field() == Field::Gf2_4);
    assert_eq!((cfg.max_matrix_rows(), cfg.feedback_every()), (3, 5));
    assert!(matches!(
        DecoderConfig::builder(0).build(),
        Err(DelpError::InvalidSymbolSize(0))
    ));
}
