use rgb_lerp::scale_channel;
use rgb_lerp::scale_rgb;
use rgb_lerp::Fraction;
use rgb_lerp::Rgb;

fn fraction(f: f64) -> Fraction {
    Fraction::from_bits(f.to_bits())
}

#[test]
fn test_scaling_rgb_u8() {
    let white = Rgb::new(255, 255, 255);
    let black = Rgb::new(0, 0, 0);
    let orange = Rgb::new(255, 127, 0);
    let turquoise = Rgb::new(0, 127, 255);

    /* invalid values for f */
    let r = scale_rgb(&white, &black, fraction(-0.5));
    assert!(r.is_err());
    let r = scale_rgb(&white, &black, fraction(1.5));
    assert!(r.is_err());
    let r = scale_rgb(&white, &black, fraction(f64::INFINITY));
    assert!(r.is_err());
    let r = scale_rgb(&white, &black, fraction(f64::NAN));
    assert!(r.is_err());

    /* Accept if it's the same color */
    let r = scale_rgb(&white, &white, fraction(-0.5));
    assert!(r.is_ok());
    assert!(r.unwrap() == white);
    let r = scale_rgb(&white, &white, fraction(1.5));
    assert!(r.is_ok());
    assert!(r.unwrap() == white);
    let r = scale_rgb(&white, &white, fraction(f64::INFINITY));
    assert!(r.is_ok());
    assert!(r.unwrap() == white);
    let r = scale_rgb(&white, &white, fraction(f64::NAN));
    assert!(r.is_ok());
    assert!(r.unwrap() == white);

    let r = scale_rgb(&white, &black, fraction(0.5));
    assert!(r.is_ok());
    let e = Rgb::new(127, 127, 127);
    let r = r.unwrap();
    assert!(r == e);

    let r = scale_rgb(&black, &white, fraction(0.5));
    assert!(r.is_ok());
    let e = Rgb::new(127, 127, 127);
    let r = r.unwrap();
    assert!(r == e);

    let r = scale_rgb(&orange, &orange, fraction(0.5));
    assert!(r.is_ok());
    let r = r.unwrap();
    assert!(r == orange);

    let r = scale_rgb(&orange, &orange, fraction(0.0));
    assert!(r.is_ok());
    let r = r.unwrap();
    assert!(r == orange);

    let r = scale_rgb(&orange, &orange, fraction(1.0));
    assert!(r.is_ok());
    let r = r.unwrap();
    assert!(r == orange);

    let r = scale_rgb(&orange, &turquoise, fraction(0.3));
    assert!(r.is_ok());
    let e = Rgb::new(178, 127, 76);
    let r = r.unwrap();
    assert!(r == e);

    let r = scale_rgb(&orange, &turquoise, fraction(0.8));
    assert!(r.is_ok());
    let e = Rgb::new(51, 127, 204);
    let r = r.unwrap();
    assert!(r == e);

    let r = scale_rgb(&turquoise, &orange, fraction(0.3));
    assert!(r.is_ok());
    let e = Rgb::new(76, 127, 178);
    let r = r.unwrap();
    assert!(r == e);

    let r = scale_rgb(&turquoise, &orange, fraction(0.8));
    assert!(r.is_ok());
    let e = Rgb::new(204, 127, 51);
    let r = r.unwrap();
    assert!(r == e);
}

#[test]
fn channel_scaler_matches_binary64_arithmetic() {
    let channels: [i64; 12] = [
        0,
        1,
        2,
        127,
        128,
        255,
        -1,
        -255,
        1000000,
        -1000000,
        4503599627370496,
        -4503599627370496,
    ];
    let fractions: [f64; 16] = [
        0.0,
        -0.0,
        1.0,
        0.5,
        0.3,
        0.8,
        0.1,
        0.25,
        0.75,
        0.9999999999999999,
        1.0e-17,
        1.0e-300,
        5.0e-324,
        9.313225746154785e-10,
        0.333333333333333314829616256247390992939472198486328125,
        0.0000001,
    ];
    for &s in channels.iter() {
        for &e in channels.iter() {
            for &f in fractions.iter() {
                let sf = s as f64;
                let ef = e as f64;
                let delta = ef - sf;
                let expected = (sf + delta * f) as i64;
                let got = scale_channel(s, e, fraction(f));
                assert_eq!(
                    got, expected,
                    "start {} end {} fraction {} gave {} instead of {}",
                    s, e, f, got, expected
                );
            }
        }
    }
}

#[test]
fn channel_scaler_matches_binary64_arithmetic_on_random_inputs() {
    // A small linear-congruential generator keeps the sweep reproducible.
    let mut state: u64 = 0x9E37_79B9_7F4A_7C15;
    let mut next = move || {
        state = state.wrapping_mul(6364136223846793005).wrapping_add(1442695040888963407);
        state
    };
    let one_bits = 1.0f64.to_bits();
    for _ in 0..20000 {
        // A fraction drawn uniformly over the bit patterns of [0, 1]:
        // this reaches subnormals, halfway cases and every exponent.
        let fbits = next() % (one_bits + 1);
        let f = f64::from_bits(fbits);
        // Channels up to the full supported magnitude of 2^52.
        let s = (next() % (1u64 << 53)) as i64 - (1i64 << 52);
        let e = (next() % (1u64 << 53)) as i64 - (1i64 << 52);
        let sf = s as f64;
        let ef = e as f64;
        let expected = (sf + (ef - sf) * f) as i64;
        let got = scale_channel(s, e, Fraction::from_bits(fbits));
        assert_eq!(
            got, expected,
            "start {} end {} fraction bits {:#x} gave {} instead of {}",
            s, e, fbits, got, expected
        );
    }
}

#[test]
fn channel_scaler_truncates_toward_zero() {
    // 255 toward 0 at one half passes through 127.5 and truncates to 127.
    assert_eq!(scale_channel(255, 0, fraction(0.5)), 127);
    // 0 toward 255 at three tenths passes through 76.5 and truncates to 76.
    assert_eq!(scale_channel(0, 255, fraction(0.3)), 76);
    // Negative results truncate toward zero as well.
    assert_eq!(scale_channel(-255, 0, fraction(0.5)), -127);
}

#[test]
fn negative_channels_blend_like_any_others() {
    let warm = Rgb::new(-200, 0, 200);
    let cold = Rgb::new(200, 0, -200);
    // -200 + 400 * 0.25 = -100 on the red channel, and the mirror image
    // on the blue channel.
    assert_eq!(scale_rgb(&warm, &cold, fraction(0.25)), Ok(Rgb::new(-100, 0, 100)));
    assert_eq!(scale_rgb(&warm, &cold, fraction(1.0)), Ok(cold));
}

#[test]
fn channel_scaler_handles_tiny_fractions() {
    // A fraction far below the rounding position leaves the start value.
    assert_eq!(scale_channel(255, 0, fraction(1.0e-300)), 255);
    assert_eq!(scale_channel(255, 0, fraction(5.0e-324)), 255);
    // A fraction near the rounding position moves the value by one.
    assert_eq!(scale_channel(255, 0, fraction(0.01)), 252);
}
