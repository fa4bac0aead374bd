//! Pooling configuration for a sentence-embedding head: which pooling modes
//! are applied and the output dimension they produce together.

use vstd::prelude::*;

verus! {

/// Raw pooling configuration: the word embedding dimension and one optional
/// switch per pooling mode; an absent switch means that mode's default.
pub struct PoolingConfig {
    pub word_embedding_dimension: i16,
    pub pooling_mode_cls_token: Option<bool>,
    pub pooling_mode_max_tokens: Option<bool>,
    pub pooling_mode_mean_tokens: Option<bool>,
    pub pooling_mode_mean_sqrt_len_tokens: Option<bool>,
}

/// The value of an optional switch, falling back to its default.
pub open spec fn flag_or(o: Option<bool>, default: bool) -> bool {
    match o {
        Some(v) => v,
        None => default,
    }
}

/// The resolved pooling layer: every mode a definite flag, and the output
/// dimension that the active modes produce.
pub struct Pooling {
    pub pooling_mode_cls_token: bool,
    pub pooling_mode_max_tokens: bool,
    pub pooling_mode_mean_tokens: bool,
    pub pooling_mode_mean_sqrt_len_tokens: bool,
    pub pooling_output_dimension: i16,
}

impl Pooling {
    /// Resolves a configuration. Every absent switch defaults to off except
    /// mean pooling, which is the default mode; the output dimension is the
    /// word embedding dimension when at least one mode is active and zero
    /// when none is.
    pub fn new(config: &PoolingConfig) -> (p: Pooling)
        ensures
            p.pooling_mode_cls_token == flag_or(config.pooling_mode_cls_token, false),
            p.pooling_mode_max_tokens == flag_or(config.pooling_mode_max_tokens, false),
            p.pooling_mode_mean_tokens == flag_or(config.pooling_mode_mean_tokens, true),
            p.pooling_mode_mean_sqrt_len_tokens == flag_or(
                config.pooling_mode_mean_sqrt_len_tokens,
                false,
            ),
            p.pooling_output_dimension == (if p.pooling_mode_cls_token
                || p.pooling_mode_max_tokens
                || p.pooling_mode_mean_tokens
                || p.pooling_mode_mean_sqrt_len_tokens {
                config.word_embedding_dimension as int
            } else {
                0
            }),
    {
        let pooling_mode_cls_token = match config.pooling_mode_cls_token {
            Some(value) => value,
            None => false,
        };
        let pooling_mode_max_tokens = match config.pooling_mode_max_tokens {
            Some(value) => value,
            None => false,
        };
        let pooling_mode_mean_tokens = match config.pooling_mode_mean_tokens {
            Some(value) => value,
            None => true,
        };
        let pooling_mode_mean_sqrt_len_tokens = match config.pooling_mode_mean_sqrt_len_tokens {
            Some(value) => value,
            None => false,
        };
        let pooling_output_dimension: i16 = if pooling_mode_cls_token || pooling_mode_max_tokens
            || pooling_mode_mean_tokens || pooling_mode_mean_sqrt_len_tokens {
            config.word_embedding_dimension
        } else {
            0
        };
        Pooling {
            pooling_mode_cls_token,
            pooling_mode_max_tokens,
            pooling_mode_mean_tokens,
            pooling_mode_mean_sqrt_len_tokens,
            pooling_output_dimension,
        }
    }
}

} // verus!
