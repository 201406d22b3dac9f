//! Reversible gain changes: the applied step count is kept in the APEv2 tag
//! so that a later call can take it back.

use vstd::prelude::*;
use crate::ape::{
    ape_tag_of, fits, minmax_text, read_ape_tag, serialize_ape_tag, serialized, tag_get,
    tag_removed, tag_set, undo_steps_of, undo_text, with_ape_tag, without_ape_tag, write_ape_tag,
    delete_ape_tag, ApeTag, TAG_MP3GAIN_MINMAX, TAG_MP3GAIN_UNDO,
};
use crate::frame::{frames_of, iterate_frames};
use crate::gain::{
    analyze, apply_gain, field_values, gain_fields, gains_applied, max_of, min_of,
    GainError, GainMode,
};

verus! {

pub open spec fn clamp_i32(v: int) -> int {
    if v < i32::MIN {
        i32::MIN as int
    } else if v > i32::MAX {
        i32::MAX as int
    } else {
        v
    }
}

/// The tag items of `d`, or none without a tag.
pub open spec fn items_or_empty(d: Seq<u8>) -> Seq<(Seq<char>, Seq<char>)> {
    match ape_tag_of(d) {
        Some(t) => t,
        None => seq![],
    }
}

/// The undo step count stored in `d`'s tag, 0 when there is none.
pub open spec fn stored_undo(d: Seq<u8>) -> int {
    match tag_get(items_or_empty(d), TAG_MP3GAIN_UNDO@) {
        Some(v) => match undo_steps_of(v) {
            Some(n) => n as int,
            None => 0,
        },
        None => 0,
    }
}

/// The tag after a change of `steps`: the undo value grows by `steps` (kept
/// within `i32`), and the min/max before any change is stored unless it
/// already is.
pub open spec fn undo_tag_after(d: Seq<u8>, steps: int) -> Seq<(Seq<char>, Seq<char>)> {
    let n = clamp_i32(stored_undo(d) + steps);
    let t1 = tag_set(items_or_empty(d), TAG_MP3GAIN_UNDO@, undo_text(n, n, false));
    let vals = field_values(d, gain_fields(d));
    if tag_get(t1, TAG_MP3GAIN_MINMAX@) is None {
        tag_set(t1, TAG_MP3GAIN_MINMAX@, minmax_text(min_of(vals), max_of(vals)))
    } else {
        t1
    }
}

/// Changes every `global_gain` field by `gain_steps` with saturation and
/// records the change in the APEv2 tag. A change of 0 does nothing; a buffer
/// without frames, or whose new tag would not fit, is refused and left as it
/// was.
#[verifier::rlimit(60)]
pub fn apply_gain_with_undo(data: &mut Vec<u8>, gain_steps: i32) -> (r: Result<usize, GainError>)
    ensures
        gain_steps == 0 ==> r == Ok::<usize, GainError>(0) && final(data)@ == old(data)@,
        gain_steps != 0 && frames_of(old(data)@).len() == 0 ==> r == Err::<usize, GainError>(
            GainError::NoValidFrames,
        ) && final(data)@ == old(data)@,
        gain_steps != 0 && frames_of(old(data)@).len() > 0 && !fits(
            undo_tag_after(old(data)@, gain_steps as int),
        ) ==> r == Err::<usize, GainError>(GainError::TagTooLarge) && final(data)@ == old(data)@,
        gain_steps != 0 && frames_of(old(data)@).len() > 0 && fits(
            undo_tag_after(old(data)@, gain_steps as int),
        ) ==> r == Ok::<usize, GainError>(frames_of(old(data)@).len() as usize) && final(data)@
            == with_ape_tag(
            gains_applied(
                old(data)@,
                gain_fields(old(data)@),
                gain_steps as int,
                GainMode::Saturate,
            ),
            serialized(undo_tag_after(old(data)@, gain_steps as int)),
        ),
{
    if gain_steps == 0 {
        return Ok(0);
    }
    let ghost d0 = data@;
    let analysis = match analyze(data.as_slice()) {
        Ok(a) => a,
        Err(_) => return Err(GainError::NoValidFrames),
    };
    let mut tag = match read_ape_tag(data.as_slice()) {
        Some(t) => t,
        None => ApeTag::new(),
    };
    let existing: i32 = match tag.get_undo_gain() {
        Some(n) => n,
        None => 0,
    };
    let sum: i64 = existing as i64 + gain_steps as i64;
    let new_undo: i32 = if sum < i32::MIN as i64 {
        i32::MIN
    } else if sum > i32::MAX as i64 {
        i32::MAX
    } else {
        sum as i32
    };
    tag.set_undo_gain(new_undo, new_undo, false);
    if tag.get(TAG_MP3GAIN_MINMAX).is_none() {
        tag.set_minmax(analysis.min_gain, analysis.max_gain);
    }
    assert(tag@ == undo_tag_after(old(data)@, gain_steps as int));
    match serialize_ape_tag(&tag) {
        Some(_) => {},
        None => return Err(GainError::TagTooLarge),
    }
    let frames = match apply_gain(data, gain_steps) {
        Ok(n) => n,
        Err(e) => return Err(e),
    };
    let ghost g = data@;
    assert(g == gains_applied(d0, gain_fields(d0), gain_steps as int, GainMode::Saturate));
    assert(frames == frames_of(d0).len());
    match write_ape_tag(data.as_slice(), &tag) {
        Some(b) => {
            *data = b;
            assert(data@ == with_ape_tag(g, serialized(tag@)));
        },
        None => {
            assert(false);
        },
    }
    Ok(frames)
}

/// The step count that takes back a stored change of `u` steps.
pub open spec fn negated_steps(u: int) -> int {
    if u == i32::MIN {
        i32::MAX as int
    } else {
        -u
    }
}

/// The tag after an undo: without its undo and min/max items.
pub open spec fn tag_after_undo(d: Seq<u8>) -> Seq<(Seq<char>, Seq<char>)> {
    tag_removed(tag_removed(items_or_empty(d), TAG_MP3GAIN_UNDO@), TAG_MP3GAIN_MINMAX@)
}

/// The tag holds an undo value that reads as a number.
pub open spec fn has_undo(d: Seq<u8>) -> bool {
    ape_tag_of(d) is Some && match tag_get(items_or_empty(d), TAG_MP3GAIN_UNDO@) {
        Some(v) => undo_steps_of(v) is Some,
        None => false,
    }
}

/// The buffer after the stored change is taken back and the undo items are
/// removed, with the whole tag when it ends up empty.
pub open spec fn undone(d: Seq<u8>) -> Seq<u8> {
    let t = tag_after_undo(d);
    let g = gains_applied(d, gain_fields(d), negated_steps(stored_undo(d)), GainMode::Saturate);
    if t.len() == 0 {
        without_ape_tag(g)
    } else {
        with_ape_tag(g, serialized(t))
    }
}

/// Takes back the change recorded in the APEv2 tag and removes the undo and
/// min/max items, and the whole tag when nothing else is left in it. A
/// stored change of 0 succeeds without touching the buffer. Without a tag,
/// without an undo value, without frames, or when the new tag would not
/// fit, the buffer is left as it was.
#[verifier::rlimit(60)]
pub fn undo_gain(data: &mut Vec<u8>) -> (r: Result<usize, GainError>)
    ensures
        ape_tag_of(old(data)@) is None ==> r == Err::<usize, GainError>(GainError::NoApeTag)
            && final(data)@ == old(data)@,
        ape_tag_of(old(data)@) is Some && (match tag_get(items_or_empty(old(data)@), TAG_MP3GAIN_UNDO@) {
            Some(v) => undo_steps_of(v) is None,
            None => true,
        }) ==> r == Err::<usize, GainError>(GainError::NoUndoValue) && final(data)@ == old(data)@,
        has_undo(old(data)@) && stored_undo(old(data)@) == 0 ==> r == Ok::<usize, GainError>(0)
            && final(data)@ == old(data)@,
        has_undo(old(data)@) && stored_undo(old(data)@) != 0 && frames_of(old(data)@).len() == 0
            ==> r == Err::<usize, GainError>(GainError::NoValidFrames) && final(data)@ == old(data)@,
        has_undo(old(data)@) && stored_undo(old(data)@) != 0 && frames_of(old(data)@).len() > 0
            && !fits(tag_after_undo(old(data)@)) ==> r == Err::<usize, GainError>(
            GainError::TagTooLarge,
        ) && final(data)@ == old(data)@,
        has_undo(old(data)@) && stored_undo(old(data)@) != 0 && frames_of(old(data)@).len() > 0
            && fits(tag_after_undo(old(data)@)) ==> r == Ok::<usize, GainError>(
            frames_of(old(data)@).len() as usize,
        ) && final(data)@ == undone(old(data)@),
{
    let ghost d0 = data@;
    let tag = match read_ape_tag(data.as_slice()) {
        Some(t) => t,
        None => return Err(GainError::NoApeTag),
    };
    assert(items_or_empty(d0) == tag@);
    let undo = match tag.get_undo_gain() {
        Some(n) => n,
        None => return Err(GainError::NoUndoValue),
    };
    if undo == 0 {
        return Ok(0);
    }
    let steps: i32 = if undo == i32::MIN {
        i32::MAX
    } else {
        -undo
    };
    if iterate_frames(data.as_slice()).len() == 0 {
        return Err(GainError::NoValidFrames);
    }
    let mut new_tag = tag;
    new_tag.remove(TAG_MP3GAIN_UNDO);
    new_tag.remove(TAG_MP3GAIN_MINMAX);
    match serialize_ape_tag(&new_tag) {
        Some(_) => {},
        None => return Err(GainError::TagTooLarge),
    }
    assert(new_tag@ == tag_after_undo(d0));
    assert(steps == negated_steps(stored_undo(d0)));
    let frames = match apply_gain(data, steps) {
        Ok(n) => n,
        Err(e) => return Err(e),
    };
    let ghost g = data@;
    if new_tag.is_empty() {
        *data = delete_ape_tag(data.as_slice());
        assert(data@ == without_ape_tag(g));
    } else {
        match write_ape_tag(data.as_slice(), &new_tag) {
            Some(b) => {
                *data = b;
                assert(data@ == with_ape_tag(g, serialized(new_tag@)));
            },
            None => {
                assert(false);
            },
        }
    }
    Ok(frames)
}

} // verus!
