//! Linear interpolation ("lerp") between three-channel colors.
//!
//! The validation policy accepts a fraction exactly when it lies in the
//! closed unit interval, with one deliberate exception: when both
//! endpoint colors are identical the result does not depend on the
//! fraction, so any fraction — NaN and infinities included — is accepted
//! and the start color is returned unchanged.
//!
//! The channel scaler blends each pair of channels the way binary64
//! arithmetic blends them — promote both endpoints, multiply the
//! difference by the fraction, add the start value, each with a
//! round-to-nearest-even step, and truncate back — carried out in exact
//! integer arithmetic on the fraction's encoded fields. A fraction enters
//! as the bit pattern of an IEEE 754 binary64 value; nothing in the
//! library touches a floating-point number.

pub mod blend;
pub mod fraction;
pub mod scale;

pub use blend::scale_channel;
pub use blend::CHANNEL_LIMIT;
pub use fraction::Fraction;
pub use scale::plan;
pub use scale::scale_rgb;
pub use scale::Rgb;
pub use scale::ScaleAction;
pub use scale::ValidationError;
