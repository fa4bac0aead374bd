use vdb::pooling::Pooling;
use vdb::pooling::PoolingConfig;

#[test]
fn mean_pooling_is_the_default() {
    let config = PoolingConfig {
        word_embedding_dimension: 768,
        pooling_mode_cls_token: None,
        pooling_mode_max_tokens: None,
        pooling_mode_mean_tokens: None,
        pooling_mode_mean_sqrt_len_tokens: None,
    };
    let p = Pooling::new(&config);
    assert!(!p.pooling_mode_cls_token);
    assert!(!p.pooling_mode_max_tokens);
    assert!(p.pooling_mode_mean_tokens);
    assert!(!p.pooling_mode_mean_sqrt_len_tokens);
    assert_eq!(p.pooling_output_dimension, 768);
}

#[test]
fn all_modes_off_yields_zero_output_dimension() {
    let config = PoolingConfig {
        word_embedding_dimension: 768,
        pooling_mode_cls_token: Some(false),
        pooling_mode_max_tokens: Some(false),
        pooling_mode_mean_tokens: Some(false),
        pooling_mode_mean_sqrt_len_tokens: Some(false),
    };
    let p = Pooling::new(&config);
    assert!(!p.pooling_mode_mean_tokens);
    assert_eq!(p.pooling_output_dimension, 0);
}

#[test]
fn explicit_switches_override_defaults() {
    let config = PoolingConfig {
        word_embedding_dimension: 384,
        pooling_mode_cls_token: Some(true),
        pooling_mode_max_tokens: None,
        pooling_mode_mean_tokens: Some(false),
        pooling_mode_mean_sqrt_len_tokens: None,
    };
    let p = Pooling::new(&config);
    assert!(p.pooling_mode_cls_token);
    assert!(!p.pooling_mode_mean_tokens);
    assert_eq!(p.pooling_output_dimension, 384);
}
