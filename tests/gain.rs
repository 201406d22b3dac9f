use mp3rgain::clipping::{plan_gain, ClipAdvice, ClipPolicy, GainPlan};
use mp3rgain::bits::{read_gain_at, write_gain_at, GainLocation};
use mp3rgain::frame::{calculate_gain_locations, iterate_frames};
use mp3rgain::gain::{
    adjust_gain, analyze, apply_gain, apply_gain_channel, apply_gain_with_mode, Channel, GainError,
    GainMode,
};

const STEREO: [u8; 4] = [0xFF, 0xFB, 0x90, 0x00];
const MONO: [u8; 4] = [0xFF, 0xFB, 0x90, 0xC0];

/// A buffer of `n` frames with the given header, filler bytes, and every
/// gain field set by `gain(frame, field)`.
fn build(header: [u8; 4], n: usize, gain: impl Fn(usize, usize) -> u8) -> Vec<u8> {
    let mut data = Vec::new();
    for i in 0..n {
        let mut frame: Vec<u8> = (0..417).map(|k| (k * 7 + i) as u8).collect();
        frame[..4].copy_from_slice(&header);
        data.extend_from_slice(&frame);
    }
    let frames = iterate_frames(&data);
    assert_eq!(frames.len(), n);
    for (i, f) in frames.iter().enumerate() {
        let locs = calculate_gain_locations(f.offset, &f.header);
        for (k, l) in locs.iter().enumerate() {
            write_gain_at(&mut data, l, gain(i, k));
        }
    }
    data
}

fn all_gains(data: &[u8]) -> Vec<Vec<u8>> {
    iterate_frames(data)
        .iter()
        .map(|f| {
            calculate_gain_locations(f.offset, &f.header)
                .iter()
                .map(|l| read_gain_at(data, l))
                .collect()
        })
        .collect()
}

#[test]
fn stereo_gain_plus_two() {
    let mut data = build(STEREO, 5, |i, k| (10 + (i * 3 + k) % 11) as u8);
    let before = analyze(&data).unwrap();
    assert_eq!(before.min_gain, 10);
    assert_eq!(before.max_gain, 20);
    let old = all_gains(&data);
    assert_eq!(apply_gain(&mut data, 2), Ok(5));
    let new = all_gains(&data);
    for (a, b) in old.iter().zip(new.iter()) {
        for (x, y) in a.iter().zip(b.iter()) {
            assert_eq!(*y, *x + 2);
        }
    }
    let after = analyze(&data).unwrap();
    assert_eq!(after.min_gain, before.min_gain + 2);
    assert_eq!(after.max_gain, before.max_gain + 2);
    assert_eq!(after.frame_count, 5);
}

#[test]
fn gain_saturates_at_255() {
    let mut data = build(STEREO, 4, |i, k| (60 + i * 10 + k) as u8);
    assert_eq!(analyze(&data).unwrap().max_gain, 93);
    let mut data2 = build(STEREO, 4, |i, k| if i == 0 && k == 0 { 100 } else { 60 });
    assert_eq!(analyze(&data2).unwrap().max_gain, 100);
    assert_eq!(apply_gain(&mut data2, 200), Ok(4));
    for g in all_gains(&data2).iter().flatten() {
        assert_eq!(*g, 255);
    }
    assert_eq!(apply_gain(&mut data, -200), Ok(4));
    for g in all_gains(&data).iter().flatten() {
        assert_eq!(*g, 0);
    }
}

#[test]
fn wrap_mode_wraps() {
    let mut data = build(STEREO, 2, |_, k| 250 + k as u8);
    assert_eq!(apply_gain_with_mode(&mut data, 10, GainMode::Wrap), Ok(2));
    for f in all_gains(&data) {
        assert_eq!(f, vec![4, 5, 6, 7]);
    }
    assert_eq!(apply_gain_with_mode(&mut data, -10, GainMode::Wrap), Ok(2));
    for f in all_gains(&data) {
        assert_eq!(f, vec![250, 251, 252, 253]);
    }
    assert_eq!(adjust_gain(3, -5, GainMode::Wrap), 254);
    assert_eq!(adjust_gain(3, -5, GainMode::Saturate), 0);
    assert_eq!(adjust_gain(200, 1000, GainMode::Saturate), 255);
    assert_eq!(adjust_gain(200, i32::MIN, GainMode::Saturate), 0);
}

#[test]
fn zero_gain_leaves_bytes() {
    let mut data = build(STEREO, 3, |_, _| 77);
    let before = data.clone();
    assert_eq!(apply_gain(&mut data, 0), Ok(0));
    assert_eq!(data, before);
    let mut empty: Vec<u8> = vec![1, 2, 3];
    assert_eq!(apply_gain(&mut empty, 0), Ok(0));
}

#[test]
fn gain_and_back_restores_bytes() {
    let mut data = build(STEREO, 4, |i, k| (30 + i + k) as u8);
    let before = data.clone();
    assert_eq!(apply_gain(&mut data, 7), Ok(4));
    assert_ne!(data, before);
    assert_eq!(apply_gain(&mut data, -7), Ok(4));
    assert_eq!(data, before);
}

#[test]
fn no_frames_is_refused() {
    let mut data = vec![0u8; 1000];
    assert_eq!(apply_gain(&mut data, 3), Err(GainError::NoValidFrames));
    assert_eq!(data, vec![0u8; 1000]);
    assert_eq!(analyze(&data), Err(GainError::NoValidFrames));
    assert_eq!(
        apply_gain_channel(&mut data, Channel::Left, 3),
        Err(GainError::NoValidFrames)
    );
}

#[test]
fn channel_gain_on_mono_fails() {
    let mut data = build(MONO, 3, |_, _| 40);
    let before = data.clone();
    let r = apply_gain_channel(&mut data, Channel::Left, 3);
    assert_eq!(r, Err(GainError::MonoFile));
    assert!(GainError::MonoFile.message().contains("mono"));
    assert_eq!(data, before);
    // a plain change works on mono files
    assert_eq!(apply_gain(&mut data, 3), Ok(3));
    for f in all_gains(&data) {
        assert_eq!(f, vec![43, 43]);
    }
}

#[test]
fn channel_gain_on_stereo_touches_one_channel() {
    let mut data = build(STEREO, 3, |_, k| (40 + k) as u8);
    assert_eq!(apply_gain_channel(&mut data, Channel::Left, 3), Ok(3));
    for f in all_gains(&data) {
        assert_eq!(f, vec![43, 41, 45, 43]);
    }
    assert_eq!(apply_gain_channel(&mut data, Channel::Right, -2), Ok(3));
    for f in all_gains(&data) {
        assert_eq!(f, vec![43, 39, 45, 41]);
    }
    assert_eq!(apply_gain_channel(&mut data, Channel::Left, 0), Ok(0));
}

#[test]
fn analysis_statistics() {
    let data = build(STEREO, 2, |i, k| (i * 4 + k) as u8 * 10);
    let a = analyze(&data).unwrap();
    assert_eq!(a.frame_count, 2);
    assert_eq!(a.gain_count, 8);
    assert_eq!(a.min_gain, 0);
    assert_eq!(a.max_gain, 70);
    assert_eq!(a.total_gain, 280);
    assert_eq!(a.headroom_steps, 185);
    assert_eq!(a.headroom_tenths_db(), 185 * 15);
    assert_eq!(a.mpeg_version.as_str(), "MPEG1");
    assert_eq!(a.channel_mode.as_str(), "Stereo");
}

#[test]
fn channel_index() {
    assert_eq!(Channel::from_index(0), Some(Channel::Left));
    assert_eq!(Channel::from_index(1), Some(Channel::Right));
    assert_eq!(Channel::from_index(2), None);
}

#[test]
fn gain_location_type_is_plain() {
    let l = GainLocation {
        byte_offset: 3,
        bit_offset: 2,
    };
    assert_eq!(l, l.clone());
}

#[test]
fn clipping_plans() {
    let clear = |steps| GainPlan { steps, advice: ClipAdvice::Clear };
    assert_eq!(plan_gain(5, 10, false, ClipPolicy::Warn), clear(5));
    assert_eq!(plan_gain(10, 10, false, ClipPolicy::Prevent), clear(10));
    assert_eq!(
        plan_gain(12, 10, false, ClipPolicy::Prevent),
        GainPlan { steps: 10, advice: ClipAdvice::Reduced }
    );
    assert_eq!(
        plan_gain(12, 10, false, ClipPolicy::Warn),
        GainPlan { steps: 12, advice: ClipAdvice::Warning }
    );
    assert_eq!(plan_gain(12, 10, false, ClipPolicy::Ignore), clear(12));
    assert_eq!(plan_gain(12, 10, true, ClipPolicy::Prevent), clear(12));
    assert_eq!(plan_gain(-12, 0, false, ClipPolicy::Prevent), clear(-12));
}
