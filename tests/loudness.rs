use mp3rgain::loudness::{gain_centi_db, is_available, LoudnessHistogram, HISTOGRAM_SIZE};
use mp3rgain::steps::{centi_db_to_steps, steps_to_centi_db};

fn track(windows: &[(i64, usize)]) -> LoudnessHistogram {
    let mut h = LoudnessHistogram::new();
    for (v, n) in windows {
        for _ in 0..*n {
            h.add_window(*v);
        }
    }
    h
}

#[test]
fn test_replaygain_availability() {
    let available = is_available();
    assert!(available);
}

#[test]
fn empty_histogram_is_minus_seventy() {
    let h = LoudnessHistogram::new();
    assert_eq!(h.data.len(), HISTOGRAM_SIZE);
    assert_eq!(h.loudness_centi_db(), -7000);
}

#[test]
fn constant_windows_give_their_loudness() {
    // twenty windows of a constant signal at -20 dB
    let h = track(&[(-2000, 20)]);
    assert_eq!(h.loudness_centi_db(), -2000);
    assert_eq!(gain_centi_db(h.loudness_centi_db()), 6482 + 2000);
}

#[test]
fn percentile_from_the_loud_end() {
    // 100 windows: 94 quiet, 6 loud; 5% of 100 is 5, reached inside the loud ones
    let h = track(&[(-3000, 94), (-1000, 6)]);
    assert_eq!(h.loudness_centi_db(), -1000);
    // 101 windows: the threshold is ceil(5.05) = 6
    let h = track(&[(-3000, 95), (-1000, 5), (-500, 1)]);
    assert_eq!(h.loudness_centi_db(), -1000);
    // with only 4 loud ones, the 5th window from the top is a quiet one
    let h = track(&[(-3000, 96), (-1000, 4)]);
    assert_eq!(h.loudness_centi_db(), -3000);
}

#[test]
fn windows_out_of_range_are_clamped() {
    let mut h = LoudnessHistogram::new();
    h.add_window(-100_000);
    h.add_window(100_000);
    assert_eq!(h.data[0], 1);
    assert_eq!(h.data[HISTOGRAM_SIZE - 1], 1);
    let h = track(&[(100_000, 1)]);
    assert_eq!(h.loudness_centi_db(), 4999);
}

#[test]
fn album_from_merged_histogram_differs_from_average() {
    // a long quiet track and a short loud one
    let long = track(&[(-3000, 1000)]);
    let short = track(&[(-1000, 10)]);
    let average = (long.loudness_centi_db() + short.loudness_centi_db()) / 2;
    assert_eq!(average, -2000);
    let mut album = LoudnessHistogram::new();
    album.accumulate(&long);
    album.accumulate(&short);
    // 5% of 1010 windows is 51: 10 loud ones, then 41 quiet ones
    assert_eq!(album.loudness_centi_db(), -3000);
    assert_ne!(album.loudness_centi_db(), average);
    // merging is the same either way round
    let mut other = LoudnessHistogram::new();
    other.accumulate(&short);
    other.accumulate(&long);
    assert_eq!(other.data, album.data);
}

#[test]
fn test_db_to_steps() {
    assert_eq!(centi_db_to_steps(0), 0);
    assert_eq!(centi_db_to_steps(150), 1);
    assert_eq!(centi_db_to_steps(300), 2);
    assert_eq!(centi_db_to_steps(-150), -1);
    assert_eq!(centi_db_to_steps(225), 2);
}

#[test]
fn test_steps_to_db() {
    assert_eq!(steps_to_centi_db(0), 0);
    assert_eq!(steps_to_centi_db(1), 150);
    assert_eq!(steps_to_centi_db(-2), -300);
}

#[test]
fn steps_rounding_boundaries() {
    assert_eq!(centi_db_to_steps(75), 1);
    assert_eq!(centi_db_to_steps(74), 0);
    assert_eq!(centi_db_to_steps(-75), -1);
    assert_eq!(centi_db_to_steps(-225), -2);
    assert_eq!(centi_db_to_steps(224), 1);
    for n in -300..300 {
        assert_eq!(centi_db_to_steps(steps_to_centi_db(n)), n as i64);
    }
}
