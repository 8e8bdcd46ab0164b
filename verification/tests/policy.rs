use rgb_lerp::plan;
use rgb_lerp::scale_rgb;
use rgb_lerp::Fraction;
use rgb_lerp::Rgb;
use rgb_lerp::ScaleAction;
use rgb_lerp::ValidationError;

fn fraction(f: f64) -> Fraction {
    Fraction::from_bits(f.to_bits())
}

#[test]
fn distinct_colors_with_invalid_fraction_are_rejected() {
    let white = Rgb::new(255, 255, 255);
    let black = Rgb::new(0, 0, 0);

    assert_eq!(scale_rgb(&white, &black, fraction(-0.5)), Err(ValidationError));
    assert_eq!(scale_rgb(&white, &black, fraction(1.5)), Err(ValidationError));
    assert_eq!(scale_rgb(&white, &black, fraction(f64::INFINITY)), Err(ValidationError));
    assert_eq!(scale_rgb(&white, &black, fraction(f64::NAN)), Err(ValidationError));
}

#[test]
fn same_color_accepts_any_fraction_unchanged() {
    let white = Rgb::new(255, 255, 255);

    assert_eq!(scale_rgb(&white, &white, fraction(-0.5)), Ok(white));
    assert_eq!(scale_rgb(&white, &white, fraction(1.5)), Ok(white));
    assert_eq!(scale_rgb(&white, &white, fraction(f64::INFINITY)), Ok(white));
    assert_eq!(scale_rgb(&white, &white, fraction(f64::NAN)), Ok(white));
    assert_eq!(scale_rgb(&white, &white, fraction(0.5)), Ok(white));
}

#[test]
fn fractions_in_the_unit_interval_always_succeed() {
    let orange = Rgb::new(255, 127, 0);
    let turquoise = Rgb::new(0, 127, 255);

    assert!(scale_rgb(&orange, &turquoise, fraction(0.0)).is_ok());
    assert!(scale_rgb(&orange, &turquoise, fraction(0.3)).is_ok());
    assert!(scale_rgb(&orange, &turquoise, fraction(0.5)).is_ok());
    assert!(scale_rgb(&orange, &turquoise, fraction(0.8)).is_ok());
    assert!(scale_rgb(&orange, &turquoise, fraction(1.0)).is_ok());
    assert!(scale_rgb(&orange, &orange, fraction(0.5)).is_ok());
}

#[test]
fn endpoint_identity() {
    let orange = Rgb::new(255, 127, 0);
    let turquoise = Rgb::new(0, 127, 255);

    assert_eq!(scale_rgb(&orange, &turquoise, fraction(0.0)), Ok(orange));
    assert_eq!(scale_rgb(&orange, &turquoise, fraction(-0.0)), Ok(orange));
    assert_eq!(scale_rgb(&orange, &turquoise, fraction(1.0)), Ok(turquoise));
    assert_eq!(scale_rgb(&turquoise, &orange, fraction(0.0)), Ok(turquoise));
    assert_eq!(scale_rgb(&turquoise, &orange, fraction(1.0)), Ok(orange));
}

#[test]
fn symmetry_at_fixed_fractions() {
    // Blending a toward b at f matches blending b toward a at 1 - f on
    // these vectors; rounding can break the identity in general.
    let orange = Rgb::new(255, 127, 0);
    let turquoise = Rgb::new(0, 127, 255);

    assert_eq!(
        scale_rgb(&orange, &turquoise, fraction(0.3)),
        scale_rgb(&turquoise, &orange, fraction(1.0 - 0.3))
    );
    assert_eq!(
        scale_rgb(&orange, &turquoise, fraction(0.5)),
        scale_rgb(&turquoise, &orange, fraction(0.5))
    );
    // At f = 0.8 rounding breaks the identity: 1.0 - 0.8 is not exactly
    // 0.2, and the red channel lands one below.
    let forward = scale_rgb(&orange, &turquoise, fraction(0.8)).unwrap();
    let backward = scale_rgb(&turquoise, &orange, fraction(1.0 - 0.8)).unwrap();
    assert_eq!(forward, Rgb::new(51, 127, 204));
    assert_eq!(backward, Rgb::new(50, 127, 204));
}

#[test]
fn equality_of_colors_is_structural() {
    let a = Rgb::new(10, 20, 30);
    let b = Rgb::new(10, 20, 30);
    assert_eq!(a, b);
    assert_ne!(a, Rgb::new(11, 20, 30));
    assert_ne!(a, Rgb::new(10, 21, 30));
    assert_ne!(a, Rgb::new(10, 20, 31));
}

#[test]
fn plan_follows_the_fraction_and_the_equality_flag() {
    assert_eq!(plan(fraction(0.25), false), Ok(ScaleAction::Blend));
    assert_eq!(plan(fraction(0.25), true), Ok(ScaleAction::Blend));
    assert_eq!(plan(fraction(-1.0), true), Ok(ScaleAction::Keep));
    assert_eq!(plan(fraction(-1.0), false), Err(ValidationError));
    assert_eq!(plan(fraction(f64::NAN), true), Ok(ScaleAction::Keep));
    assert_eq!(plan(fraction(f64::NAN), false), Err(ValidationError));
}
