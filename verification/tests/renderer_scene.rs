use kiss3d::renderer::dof::DepthOfFieldMode;
use kiss3d::renderer::half::f16_bits;
use kiss3d::renderer::reflection_probe::{ReflectionProbes, MAX_PROBES};
use kiss3d::renderer::transmission::{TransmissionBlurQuality, TransmissionSettings};
use kiss3d::renderer::{ensure_capacity, next_power_of_two, TargetSize};
use kiss3d::scene::animation::{AnimationPlayer, Interpolation};

#[test]
fn next_power_of_two_matches_std() {
    for n in [0usize, 1, 2, 3, 5, 8, 9, 1000, 1 << 20, (1 << 20) + 1] {
        assert_eq!(next_power_of_two(n), n.next_power_of_two());
    }
}

#[test]
fn ensure_capacity_grows_to_power_of_two() {
    assert_eq!(ensure_capacity(16, 10), None);
    assert_eq!(ensure_capacity(16, 16), None);
    assert_eq!(ensure_capacity(16, 17), Some(32));
    assert_eq!(ensure_capacity(0, 1), Some(1));
    assert_eq!(ensure_capacity(100, 1000), Some(1024));
}

#[test]
fn target_size_bumps_generation_on_change() {
    let mut t = TargetSize::new(0, 600);
    assert_eq!((t.width(), t.height()), (1, 600));
    assert_eq!(t.generation(), 1);
    assert!(!t.resize(1, 600));
    assert!(!t.resize(0, 600));
    assert_eq!(t.generation(), 1);
    assert!(t.resize(800, 600));
    assert_eq!((t.width(), t.height()), (800, 600));
    assert_eq!(t.generation(), 2);
    assert!(t.resize(800, 601));
    assert_eq!(t.generation(), 3);
}

#[test]
fn f16_bits_exact_values() {
    assert_eq!(f16_bits(1.0f32.to_bits()), 0x3c00);
    assert_eq!(f16_bits((-2.0f32).to_bits()), 0xc000);
    assert_eq!(f16_bits(0.5f32.to_bits()), 0x3800);
    assert_eq!(f16_bits(65504.0f32.to_bits()), 0x7bff);
    assert_eq!(f16_bits(0.0f32.to_bits()), 0x0000);
    assert_eq!(f16_bits((-0.0f32).to_bits()), 0x8000);
}

#[test]
fn f16_bits_saturates_and_flushes() {
    assert_eq!(f16_bits(1.0e6f32.to_bits()), 0x7c00);
    assert_eq!(f16_bits((-1.0e6f32).to_bits()), 0xfc00);
    assert_eq!(f16_bits(f32::INFINITY.to_bits()), 0x7c00);
    assert_eq!(f16_bits(1.0e-8f32.to_bits()), 0x0000);
    assert_eq!(f16_bits((-1.0e-8f32).to_bits()), 0x8000);
    // Mantissa truncation: 1 + 2^-11 is below half precision and drops.
    assert_eq!(f16_bits((1.0f32 + 1.0 / 2048.0).to_bits()), 0x3c00);
    assert_eq!(f16_bits((1.0f32 + 1.0 / 1024.0).to_bits()), 0x3c01);
}

#[test]
fn f16_bits_keeps_nan_and_subnormals() {
    let nan = f16_bits(f32::NAN.to_bits());
    assert_eq!(nan & 0x7c00, 0x7c00);
    assert_ne!(nan & 0x03ff, 0);
    assert_eq!(f16_bits(0x7fc0_0000), 0x7e00);
    assert_eq!(f16_bits(0xff80_0001), 0xfe00);
    assert_eq!(f16_bits(f32::NEG_INFINITY.to_bits()), 0xfc00);
    // Smallest half subnormal, 2^-24, and 2^-15.
    assert_eq!(f16_bits(2.0f32.powi(-24).to_bits()), 0x0001);
    assert_eq!(f16_bits(2.0f32.powi(-15).to_bits()), 0x0200);
    assert_eq!(f16_bits((-(2.0f32.powi(-15))).to_bits()), 0x8200);
    // Largest subnormal-range value just below the smallest normal, 2^-14.
    assert_eq!(f16_bits(2.0f32.powi(-14).to_bits()), 0x0400);
    assert_eq!(f16_bits((2.0f32.powi(-14) * 0.75).to_bits()), 0x0300);
    // Below half the smallest subnormal: zero.
    assert_eq!(f16_bits(2.0f32.powi(-26).to_bits()), 0x0000);
}

#[test]
fn reflection_probes_fill_up_to_max() {
    let mut p: ReflectionProbes<u32> = ReflectionProbes::new();
    assert!(p.is_empty());
    assert_eq!(p.mip_count(), 9);
    for i in 0..MAX_PROBES {
        assert_eq!(p.add(i as u32 * 10), Some(i));
    }
    assert_eq!(p.len(), MAX_PROBES);
    assert_eq!(p.add(99), None);
    assert_eq!(p.len(), MAX_PROBES);
    assert_eq!(p.probe(3), Some(&30));
    assert_eq!(p.probe(MAX_PROBES), None);
    assert!(p.set_probe(3, 33));
    assert_eq!(p.probes()[3], 33);
    assert!(!p.set_probe(MAX_PROBES, 1));
}

#[test]
fn transmission_defaults() {
    let s = TransmissionSettings::default();
    assert_eq!(s.blur_quality, TransmissionBlurQuality::High);
    assert_eq!(s.steps, 1);
    assert_eq!(TransmissionBlurQuality::default(), TransmissionBlurQuality::High);
    assert_eq!(TransmissionBlurQuality::Low.pipeline_index(), 0);
    assert_eq!(TransmissionBlurQuality::Medium.pipeline_index(), 1);
    assert_eq!(TransmissionBlurQuality::High.pipeline_index(), 2);
    assert_eq!(s.steps(), 1);
    let none = TransmissionSettings { blur_quality: TransmissionBlurQuality::Low, steps: 0 };
    assert_eq!(none.steps(), 1);
    let three = TransmissionSettings { blur_quality: TransmissionBlurQuality::Medium, steps: 3 };
    assert_eq!(three.steps(), 3);
}

#[test]
fn dof_modes_are_distinct() {
    assert_ne!(DepthOfFieldMode::Bokeh, DepthOfFieldMode::Gaussian);
    assert_ne!(Interpolation::Linear, Interpolation::Step);
}

#[test]
fn animation_player_plays_by_name_and_index() {
    let names = vec![String::from("walk"), String::from("run"), String::from("walk")];
    let mut p = AnimationPlayer::new(names);
    assert_eq!(p.clip_count(), 3);
    assert_eq!(p.clip_names()[1], "run");
    assert_eq!(p.current(), None);
    assert!(!p.is_playing());
    assert!(p.is_looping());
    assert_eq!(p.advancing_clip(), None);

    assert!(p.play("walk"));
    assert_eq!(p.current(), Some(0));
    assert!(p.is_playing());
    assert_eq!(p.advancing_clip(), Some(0));

    assert!(!p.play("jump"));
    assert_eq!(p.current(), Some(0));

    assert!(p.play_index(2));
    assert_eq!(p.current(), Some(2));
    assert!(!p.play_index(3));
    assert_eq!(p.current(), Some(2));

    p.stop();
    assert!(!p.is_playing());
    assert_eq!(p.current(), Some(2));
    assert_eq!(p.advancing_clip(), None);

    p.set_looping(false);
    assert!(!p.is_looping());
}
