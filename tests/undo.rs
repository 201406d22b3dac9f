use mp3rgain::ape::{read_ape_tag, write_ape_tag, ApeTag, TAG_MP3GAIN_MINMAX, TAG_MP3GAIN_UNDO};
use mp3rgain::bits::{read_gain_at, write_gain_at};
use mp3rgain::frame::{calculate_gain_locations, iterate_frames};
use mp3rgain::gain::GainError;
use mp3rgain::undo::{apply_gain_with_undo, undo_gain};

fn build(n: usize, gain: u8) -> Vec<u8> {
    let mut data = Vec::new();
    for _ in 0..n {
        let mut frame = vec![0x5Au8; 417];
        frame[..4].copy_from_slice(&[0xFF, 0xFB, 0x90, 0x00]);
        data.extend_from_slice(&frame);
    }
    // a sync word after the last frame, so that it is still accepted when a
    // tag follows
    data.extend_from_slice(&[0xFF, 0xE0]);
    for f in iterate_frames(&data) {
        for l in calculate_gain_locations(f.offset, &f.header) {
            write_gain_at(&mut data, &l, gain);
        }
    }
    data
}

fn gains(data: &[u8]) -> Vec<u8> {
    iterate_frames(data)
        .iter()
        .flat_map(|f| calculate_gain_locations(f.offset, &f.header))
        .map(|l| read_gain_at(data, &l))
        .collect()
}

#[test]
fn apply_then_undo() {
    let original = build(3, 100);
    let mut data = original.clone();
    assert_eq!(apply_gain_with_undo(&mut data, 4), Ok(3));
    assert!(gains(&data).iter().all(|g| *g == 104));
    let tag = read_ape_tag(&data).unwrap();
    assert_eq!(tag.get(TAG_MP3GAIN_UNDO), Some("+004,+004,N"));
    assert_eq!(tag.get(TAG_MP3GAIN_MINMAX), Some("100,100"));
    // a second change adds up; min/max stays the original one
    assert_eq!(apply_gain_with_undo(&mut data, -1), Ok(3));
    let tag = read_ape_tag(&data).unwrap();
    assert_eq!(tag.get(TAG_MP3GAIN_UNDO), Some("+003,+003,N"));
    assert_eq!(tag.get(TAG_MP3GAIN_MINMAX), Some("100,100"));
    assert!(gains(&data).iter().all(|g| *g == 103));
    // undo restores the file and removes the tag, which is then empty
    assert_eq!(undo_gain(&mut data), Ok(3));
    assert_eq!(data, original);
}

#[test]
fn undo_keeps_other_items() {
    let mut data = build(2, 50);
    let mut t = ApeTag::new();
    t.set("ARTIST", "X");
    data = write_ape_tag(&data, &t).unwrap();
    assert_eq!(apply_gain_with_undo(&mut data, 2), Ok(2));
    assert_eq!(undo_gain(&mut data), Ok(2));
    let tag = read_ape_tag(&data).unwrap();
    assert_eq!(tag.items.len(), 1);
    assert_eq!(tag.get("artist"), Some("X"));
    assert!(gains(&data).iter().all(|g| *g == 50));
}

#[test]
fn undo_without_tag_or_value() {
    let mut data = build(2, 50);
    assert_eq!(undo_gain(&mut data), Err(GainError::NoApeTag));
    let mut t = ApeTag::new();
    t.set("ARTIST", "X");
    let mut tagged = write_ape_tag(&data, &t).unwrap();
    let before = tagged.clone();
    assert_eq!(undo_gain(&mut tagged), Err(GainError::NoUndoValue));
    assert_eq!(tagged, before);
}

#[test]
fn undo_of_zero_is_no_op() {
    let data = build(2, 50);
    let mut t = ApeTag::new();
    t.set_undo_gain(0, 0, false);
    let mut tagged = write_ape_tag(&data, &t).unwrap();
    let before = tagged.clone();
    assert_eq!(undo_gain(&mut tagged), Ok(0));
    assert_eq!(tagged, before);
}

#[test]
fn undo_apply_refusals() {
    let mut data = build(2, 50);
    let before = data.clone();
    assert_eq!(apply_gain_with_undo(&mut data, 0), Ok(0));
    assert_eq!(data, before);
    let mut nothing = vec![0u8; 300];
    assert_eq!(
        apply_gain_with_undo(&mut nothing, 2),
        Err(GainError::NoValidFrames)
    );
    assert_eq!(nothing, vec![0u8; 300]);
    assert_eq!(GainError::TagTooLarge.message(), "APE tag too large");
}
