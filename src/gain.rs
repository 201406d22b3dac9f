//! Whole-file and per-channel gain changes on the `global_gain` fields, and
//! the statistics of those fields.

use vstd::prelude::*;
use crate::bits::{
    field_value, field_written, read_gain_at, write_gain_at, lemma_field_write_then_read,
    GainLocation,
};
use crate::frame::{
    calculate_gain_locations, frames_of, gain_location_at, gain_locations, iterate_frames,
    lemma_frames_from_ordered, lemma_gain_locations_in_frame, frames_ordered, header_ok,
    id3v2_size, ChannelMode, Frame, MpegVersion,
};

verus! {

/// How a gain change that leaves 0..255 is handled.
#[derive(Debug, Clone, Copy, PartialEq, Eq, Structural)]
pub enum GainMode {
    /// Clamp to 0 and 255.
    Saturate,
    /// Wrap modulo 256.
    Wrap,
}

/// One channel of a two-channel file.
#[derive(Debug, Clone, Copy, PartialEq, Eq, Structural)]
pub enum Channel {
    Left,
    Right,
}

impl Channel {
    pub open spec fn index(&self) -> int {
        match self {
            Channel::Left => 0,
            Channel::Right => 1,
        }
    }

    /// The channel with the given index: 0 is left, 1 is right.
    pub fn from_index(i: usize) -> (r: Option<Channel>)
        ensures
            i == 0 ==> r == Some(Channel::Left),
            i == 1 ==> r == Some(Channel::Right),
            i > 1 ==> r.is_none(),
    {
        if i == 0 {
            Some(Channel::Left)
        } else if i == 1 {
            Some(Channel::Right)
        } else {
            None
        }
    }
}

/// Failures of the gain operations.
#[derive(Debug, Clone, Copy, PartialEq, Eq, Structural)]
pub enum GainError {
    /// The buffer holds no valid Layer III frame.
    NoValidFrames,
    /// A channel was named, but the file is mono.
    MonoFile,
    /// An undo was asked for, but the file has no APEv2 tag.
    NoApeTag,
    /// An undo was asked for, but the tag holds no undo value.
    NoUndoValue,
    /// The tag would not fit the 32-bit size field.
    TagTooLarge,
}

impl GainError {
    pub fn message(&self) -> &'static str {
        match self {
            GainError::NoValidFrames => "No valid MP3 frames found",
            GainError::MonoFile => "Cannot apply channel-specific gain to a mono file",
            GainError::NoApeTag => "No APE tag found - cannot undo",
            GainError::NoUndoValue => "No MP3GAIN_UNDO tag found - cannot undo",
            GainError::TagTooLarge => "APE tag too large",
        }
    }
}

/// A field value after a change of `steps`.
pub open spec fn adjusted(v: u8, steps: int, mode: GainMode) -> u8 {
    let t = v + steps;
    match mode {
        GainMode::Saturate => if t < 0 {
            0
        } else if t > 255 {
            255
        } else {
            t as u8
        },
        GainMode::Wrap => (t % 256) as u8,
    }
}

/// The fields of frame `f` that a change touches: all of them, or, for one
/// channel, those of that channel in a two-channel frame.
pub open spec fn frame_locations(f: Frame, sel: Option<Channel>) -> Seq<GainLocation> {
    match sel {
        None => gain_locations(f.offset as int, f.header),
        Some(c) => if f.header.channel_mode.channels() == 1 {
            seq![]
        } else {
            Seq::new(
                f.header.granules() as nat,
                |g: int| gain_location_at(f.offset as int, f.header, 2 * g + c.index()),
            )
        },
    }
}

/// The fields of a sequence of frames, frame by frame.
pub open spec fn file_locations(fs: Seq<Frame>, sel: Option<Channel>) -> Seq<GainLocation>
    decreases fs.len(),
{
    if fs.len() == 0 {
        seq![]
    } else {
        file_locations(fs.drop_last(), sel) + frame_locations(fs.last(), sel)
    }
}

/// The `global_gain` fields of a whole buffer.
pub open spec fn gain_fields(d: Seq<u8>) -> Seq<GainLocation> {
    file_locations(frames_of(d), None)
}

/// The buffer after each field in `locs`, in order, is read and rewritten
/// with its value changed by `steps`.
pub open spec fn gains_applied(d: Seq<u8>, locs: Seq<GainLocation>, steps: int, mode: GainMode) -> Seq<
    u8,
>
    decreases locs.len(),
{
    if locs.len() == 0 {
        d
    } else {
        let prev = gains_applied(d, locs.drop_last(), steps, mode);
        let l = locs.last();
        field_written(
            prev,
            l.byte_offset as int,
            l.bit_offset,
            adjusted(field_value(prev, l.byte_offset as int, l.bit_offset), steps, mode),
        )
    }
}

/// The values held by the fields `locs`.
pub open spec fn field_values(d: Seq<u8>, locs: Seq<GainLocation>) -> Seq<u8> {
    Seq::new(locs.len(), |k: int| field_value(d, locs[k].byte_offset as int, locs[k].bit_offset))
}

/// Fields that each lie inside the buffer with their following byte, in
/// increasing order, two bytes or more apart.
pub open spec fn spaced(locs: Seq<GainLocation>, len: int) -> bool {
    &&& forall|k: int|
        0 <= k < locs.len() ==> #[trigger] locs[k].bit_offset < 8 && locs[k].byte_offset + 1
            < len
    &&& forall|i: int, j: int|
        0 <= i < j < locs.len() ==> #[trigger] locs[i].byte_offset + 2 <= #[trigger] locs[j].byte_offset
}

/// Byte `i` holds bits of one of the fields `locs`.
pub open spec fn touched(locs: Seq<GainLocation>, i: int) -> bool {
    exists|k: int|
        0 <= k < locs.len() && (#[trigger] locs[k].byte_offset == i || (locs[k].bit_offset != 0
            && locs[k].byte_offset + 1 == i))
}

/// The bits that share bytes with the field at `l` are the same in `d` and `r`.
pub open spec fn neighbours_kept(d: Seq<u8>, r: Seq<u8>, l: GainLocation) -> bool {
    let i = l.byte_offset as int;
    let off = l.bit_offset;
    off == 0 || (r[i] >> ((8 - off) as u8) == d[i] >> ((8 - off) as u8) && r[i + 1] & (0xFFu8
        >> off) == d[i + 1] & (0xFFu8 >> off))
}

proof fn lemma_write_keeps_neighbours(a: u8, b: u8, off: u8, v: u8)
    requires
        0 < off < 8,
    ensures
        ((a & ((0xFFu8 << ((8 - off) as u8)) as u8)) | (v >> off)) >> ((8 - off) as u8) == a >> ((8
            - off) as u8),
        ((b & (0xFFu8 >> off)) | ((v << ((8 - off) as u8)) as u8)) & (0xFFu8 >> off) == b & (0xFFu8
            >> off),
{
    assert(((a & ((0xFFu8 << ((8 - off) as u8)) as u8)) | (v >> off)) >> ((8 - off) as u8) == a >> ((
    8 - off) as u8)) by (bit_vector)
        requires
            0 < off < 8,
    ;
    assert(((b & (0xFFu8 >> off)) | ((v << ((8 - off) as u8)) as u8)) & (0xFFu8 >> off) == b & (0xFFu8
        >> off)) by (bit_vector)
        requires
            0 < off < 8,
    ;
}

/// On spaced fields the rewrites do not disturb one another: each field ends
/// up holding its own value changed by `steps`, the other bits of the bytes
/// it shares keep their value, and no other byte changes.
pub proof fn lemma_gains_applied(d: Seq<u8>, locs: Seq<GainLocation>, steps: int, mode: GainMode)
    requires
        spaced(locs, d.len() as int),
    ensures
        gains_applied(d, locs, steps, mode).len() == d.len(),
        forall|k: int|
            0 <= k < locs.len() ==> field_value(
                gains_applied(d, locs, steps, mode),
                #[trigger] locs[k].byte_offset as int,
                locs[k].bit_offset,
            ) == adjusted(
                field_value(d, locs[k].byte_offset as int, locs[k].bit_offset),
                steps,
                mode,
            ),
        forall|k: int|
            0 <= k < locs.len() ==> neighbours_kept(
                d,
                gains_applied(d, locs, steps, mode),
                #[trigger] locs[k],
            ),
        forall|i: int|
            0 <= i < d.len() && !touched(locs, i) ==> #[trigger] gains_applied(
                d,
                locs,
                steps,
                mode,
            )[i] == d[i],
    decreases locs.len(),
{
    let r = gains_applied(d, locs, steps, mode);
    if locs.len() > 0 {
        let pre = locs.drop_last();
        assert(spaced(pre, d.len() as int)) by {
            assert forall|i: int, j: int| 0 <= i < j < pre.len() implies #[trigger] pre[i].byte_offset
                + 2 <= #[trigger] pre[j].byte_offset by {
                assert(locs[i].byte_offset + 2 <= locs[j].byte_offset);
            }
        }
        lemma_gains_applied(d, pre, steps, mode);
        let prev = gains_applied(d, pre, steps, mode);
        let n = locs.len() - 1;
        let l = locs[n];
        let idx = l.byte_offset as int;
        let off = l.bit_offset;
        assert(l.bit_offset < 8 && idx + 1 < d.len());
        assert forall|k: int| 0 <= k < pre.len() implies #[trigger] pre[k].byte_offset + 2 <= idx by {
            assert(locs[k].byte_offset + 2 <= locs[n].byte_offset);
        }
        assert(!touched(pre, idx) && !touched(pre, idx + 1)) by {
            if touched(pre, idx) {
                let k = choose|k: int|
                    0 <= k < pre.len() && (#[trigger] pre[k].byte_offset == idx || (
                    pre[k].bit_offset != 0 && pre[k].byte_offset + 1 == idx));
                assert(pre[k].byte_offset + 2 <= idx);
            }
            if touched(pre, idx + 1) {
                let k = choose|k: int|
                    0 <= k < pre.len() && (#[trigger] pre[k].byte_offset == idx + 1 || (
                    pre[k].bit_offset != 0 && pre[k].byte_offset + 1 == idx + 1));
                assert(pre[k].byte_offset + 2 <= idx);
            }
        }
        assert(prev[idx] == d[idx] && prev[idx + 1] == d[idx + 1]);
        assert(field_value(prev, idx, off) == field_value(d, idx, off));
        let v = adjusted(field_value(prev, idx, off), steps, mode);
        lemma_field_write_then_read(prev, idx, off, v);
        assert(r == field_written(prev, idx, off, v));
        assert forall|i: int| 0 <= i < d.len() && i != idx && i != idx + 1 implies #[trigger] r[i]
            == prev[i] by {}
        assert(off == 0 ==> r[idx + 1] == prev[idx + 1]);
        assert forall|k: int| 0 <= k < locs.len() implies field_value(
            r,
            #[trigger] locs[k].byte_offset as int,
            locs[k].bit_offset,
        ) == adjusted(field_value(d, locs[k].byte_offset as int, locs[k].bit_offset), steps, mode)
            && neighbours_kept(d, r, locs[k]) by {
            if k < n {
                assert(pre[k] == locs[k]);
                let j = locs[k].byte_offset as int;
                assert(j + 2 <= idx);
                assert(r[j] == prev[j] && r[j + 1] == prev[j + 1]);
            } else {
                if off != 0 {
                    lemma_write_keeps_neighbours(prev[idx], prev[idx + 1], off, v);
                }
            }
        }
        assert forall|i: int| 0 <= i < d.len() && !touched(locs, i) implies #[trigger] r[i] == d[i] by {
            if touched(pre, i) {
                let k = choose|k: int|
                    0 <= k < pre.len() && (#[trigger] pre[k].byte_offset == i || (
                    pre[k].bit_offset != 0 && pre[k].byte_offset + 1 == i));
                assert(locs[k] == pre[k]);
                assert(touched(locs, i));
            }
            if i == idx {
                assert(locs[n].byte_offset == i);
                assert(touched(locs, i));
            }
            if i == idx + 1 && off != 0 {
                assert(touched(locs, i));
            }
        }
    }
}

proof fn lemma_frame_locations_spaced(f: Frame, sel: Option<Channel>)
    requires
        header_ok(f.header),
        f.offset + f.header.frame_size <= usize::MAX,
    ensures
        spaced(frame_locations(f, sel), f.offset + f.header.frame_size),
        forall|k: int|
            0 <= k < frame_locations(f, sel).len() ==> f.offset + 4 <= (
            #[trigger] frame_locations(f, sel)[k]).byte_offset,
{
    let pos = f.offset as int;
    let h = f.header;
    let locs = frame_locations(f, sel);
    lemma_gain_locations_in_frame(pos, h);
    let n = h.granules() * h.channel_mode.channels();
    assert forall|i: int, j: int| 0 <= i < j < n implies #[trigger] gain_bit_byte(h, i) + 7
        <= #[trigger] gain_bit_byte(h, j) by {
        assert(crate::frame::gain_bit(h, i) / 8 + 7 <= crate::frame::gain_bit(h, i + 1) / 8);
        if i + 1 < j {
            assert(crate::frame::gain_bit(h, i + 1) / 8 + 7 <= crate::frame::gain_bit(h, i + 2) / 8);
            if i + 2 < j {
                assert(crate::frame::gain_bit(h, i + 2) / 8 + 7 <= crate::frame::gain_bit(h, i + 3)
                    / 8);
            }
        }
    }
    match sel {
        None => {
            assert forall|i: int, j: int| 0 <= i < j < locs.len() implies #[trigger] locs[i].byte_offset
                + 2 <= #[trigger] locs[j].byte_offset by {
                assert(gain_bit_byte(h, i) + 7 <= gain_bit_byte(h, j));
            }
            assert forall|k: int| 0 <= k < locs.len() implies #[trigger] locs[k].bit_offset < 8
                && locs[k].byte_offset + 1 < pos + h.frame_size && pos + 4 <= locs[k].byte_offset by {
                assert(locs[k] == gain_location_at(pos, h, k));
            }
        },
        Some(c) => {
            if h.channel_mode.channels() != 1 {
                assert forall|i: int, j: int| 0 <= i < j < locs.len() implies #[trigger] locs[i].byte_offset
                    + 2 <= #[trigger] locs[j].byte_offset by {
                    assert(gain_bit_byte(h, 2 * i + c.index()) + 7 <= gain_bit_byte(h, 2 * j + c.index()));
                }
                assert forall|k: int| 0 <= k < locs.len() implies #[trigger] locs[k].bit_offset < 8
                    && locs[k].byte_offset + 1 < pos + h.frame_size && pos + 4 <= locs[k].byte_offset by {
                    assert(locs[k] == gain_location_at(pos, h, 2 * k + c.index()));
                }
            }
        },
    }
}

spec fn gain_bit_byte(h: crate::frame::FrameHeader, k: int) -> int {
    crate::frame::gain_bit(h, k) / 8
}

/// The fields of frames that follow one another are spaced, and lie before
/// the end of the last frame.
proof fn lemma_file_locations_spaced(fs: Seq<Frame>, sel: Option<Channel>, len: int)
    requires
        frames_ordered(fs, len),
        len <= usize::MAX,
    ensures
        spaced(file_locations(fs, sel), len),
        fs.len() > 0 ==> forall|k: int|
            0 <= k < file_locations(fs, sel).len() ==> (#[trigger] file_locations(fs, sel)[k]).byte_offset
                + 2 <= fs.last().offset + fs.last().header.frame_size,
    decreases fs.len(),
{
    if fs.len() > 0 {
        let pre = fs.drop_last();
        let f = fs.last();
        assert(frames_ordered(pre, len)) by {
            assert forall|j: int| 0 <= j < pre.len() - 1 implies #[trigger] pre[j].offset
                + pre[j].header.frame_size <= pre[j + 1].offset by {
                assert(pre[j] == fs[j] && pre[j + 1] == fs[j + 1]);
            }
            assert forall|j: int| 0 <= j < pre.len() implies header_ok(#[trigger] pre[j].header)
                && pre[j].offset + pre[j].header.frame_size <= len by {
                assert(pre[j] == fs[j]);
            }
        }
        lemma_file_locations_spaced(pre, sel, len);
        assert(header_ok(fs[fs.len() - 1].header));
        assert(fs[fs.len() - 1].offset + fs[fs.len() - 1].header.frame_size <= len);
        lemma_frame_locations_spaced(f, sel);
        let a = file_locations(pre, sel);
        let b = frame_locations(f, sel);
        let all = file_locations(fs, sel);
        assert(all == a + b);
        if pre.len() > 0 {
            assert(pre.last() == fs[fs.len() - 2]);
            assert(pre.last().offset + pre.last().header.frame_size <= f.offset);
        }
        assert forall|i: int, j: int| 0 <= i < j < all.len() implies #[trigger] all[i].byte_offset
            + 2 <= #[trigger] all[j].byte_offset by {
            if j < a.len() {
                assert(all[i] == a[i] && all[j] == a[j]);
            } else if i >= a.len() {
                assert(all[i] == b[i - a.len()] && all[j] == b[j - a.len()]);
            } else {
                assert(all[i] == a[i] && all[j] == b[j - a.len()]);
            }
        }
        assert forall|k: int| 0 <= k < all.len() implies (#[trigger] all[k]).byte_offset + 2
            <= f.offset + f.header.frame_size by {
            if k < a.len() {
                assert(pre.len() > 0);
                assert(all[k] == a[k]);
                assert(a[k].byte_offset + 2 <= pre.last().offset + pre.last().header.frame_size);
                assert(pre.last().offset + pre.last().header.frame_size <= f.offset);
            } else {
                let kb = k - a.len();
                assert(all[k] == b[kb]);
                assert(b[kb].bit_offset < 8 && b[kb].byte_offset + 1 < f.offset + f.header.frame_size);
            }
        }
        assert forall|k: int| 0 <= k < all.len() implies #[trigger] all[k].bit_offset < 8
            && all[k].byte_offset + 1 < len by {
            if k < a.len() {
                assert(all[k] == a[k]);
            } else {
                assert(all[k] == b[k - a.len()]);
            }
        }
        assert(f == fs.last());
    }
}

/// Collects the fields of `frames` that a change touches.
fn collect_locations(data: &[u8], frames: &Vec<Frame>, sel: Option<Channel>) -> (r: Vec<
    GainLocation,
>)
    requires
        frames@ == frames_of(data@),
    ensures
        r@ == file_locations(frames@, sel),
{
    let data_len = data.len();
    proof {
        lemma_frames_from_ordered(data@, id3v2_size(data@));
    }
    let mut locs: Vec<GainLocation> = Vec::new();
    let mut j: usize = 0;
    while j < frames.len()
        invariant
            frames@ == frames_of(data@),
            frames_ordered(frames@, data@.len() as int),
            data_len == data@.len(),
            j <= frames.len(),
            locs@ == file_locations(frames@.take(j as int), sel),
        decreases frames.len() - j,
    {
        let f = frames[j];
        assert(header_ok(frames@[j as int].header));
        assert(frames@[j as int].offset + frames@[j as int].header.frame_size <= data@.len());
        let all = calculate_gain_locations(f.offset, &f.header);
        let ghost before = locs@;
        match sel {
            None => {
                let mut k: usize = 0;
                while k < all.len()
                    invariant
                        k <= all.len(),
                        locs@ == before + all@.take(k as int),
                    decreases all.len() - k,
                {
                    locs.push(all[k]);
                    k = k + 1;
                    assert(locs@ =~= before + all@.take(k as int));
                }
                assert(all@.take(k as int) =~= all@);
            },
            Some(c) => {
                if f.header.channel_mode.channel_count() != 1 {
                    let ci: usize = match c {
                        Channel::Left => 0,
                        Channel::Right => 1,
                    };
                    let granules = f.header.granule_count();
                    let ghost want = frame_locations(f, sel);
                    let mut g: usize = 0;
                    while g < granules
                        invariant
                            g <= granules,
                            granules == f.header.granules(),
                            f.header.channel_mode.channels() == 2,
                            ci == c.index(),
                            sel == Some(c),
                            all@ == gain_locations(f.offset as int, f.header),
                            want == frame_locations(f, sel),
                            want.len() == granules,
                            locs@ == before + want.take(g as int),
                        decreases granules - g,
                    {
                        assert(all@.len() == 2 * granules) by {
                            assert(granules == 1 || granules == 2);
                        }
                        assert(all@[2 * g + ci] == want[g as int]);
                        locs.push(all[2 * g + ci]);
                        g = g + 1;
                        assert(locs@ =~= before + want.take(g as int));
                    }
                    assert(want.take(g as int) =~= want);
                } else {
                    assert(frame_locations(f, sel) =~= seq![]);
                    assert(locs@ =~= before + frame_locations(f, sel));
                }
            },
        }
        assert(frames@.take(j + 1).drop_last() =~= frames@.take(j as int));
        j = j + 1;
        assert(locs@ == file_locations(frames@.take(j as int), sel));
    }
    assert(frames@.take(j as int) =~= frames@);
    locs
}

/// The field value changed by `steps`.
pub fn adjust_gain(v: u8, steps: i32, mode: GainMode) -> (r: u8)
    ensures
        r == adjusted(v, steps as int, mode),
{
    let t: i64 = v as i64 + steps as i64;
    match mode {
        GainMode::Saturate => if t < 0 {
            0
        } else if t > 255 {
            255
        } else {
            t as u8
        },
        GainMode::Wrap => {
            let m: i64 = if t >= 0 {
                t % 256
            } else {
                let u: i64 = (-t) % 256;
                if u == 0 {
                    0
                } else {
                    256 - u
                }
            };
            assert(m == t % 256);
            m as u8
        },
    }
}

fn apply_to_locations(data: &mut Vec<u8>, locs: &Vec<GainLocation>, steps: i32, mode: GainMode)
    requires
        spaced(locs@, old(data)@.len() as int),
    ensures
        final(data)@ == gains_applied(old(data)@, locs@, steps as int, mode),
{
    let ghost start = data@;
    let mut m: usize = 0;
    while m < locs.len()
        invariant
            m <= locs.len(),
            spaced(locs@, start.len() as int),
            data@ == gains_applied(start, locs@.take(m as int), steps as int, mode),
            data@.len() == start.len(),
        decreases locs.len() - m,
    {
        let loc = locs[m];
        assert(locs@.take(m + 1).drop_last() =~= locs@.take(m as int));
        let current = read_gain_at(data.as_slice(), &loc);
        let new_gain = adjust_gain(current, steps, mode);
        write_gain_at(data, &loc, new_gain);
        m = m + 1;
    }
    assert(locs@.take(m as int) =~= locs@);
}

/// Changes every `global_gain` field by `gain_steps` with saturation and
/// returns the number of frames; a change of 0 is no change at all.
pub fn apply_gain(data: &mut Vec<u8>, gain_steps: i32) -> (r: Result<usize, GainError>)
    ensures
        gain_steps == 0 ==> r == Ok::<usize, GainError>(0) && final(data)@ == old(data)@,
        gain_steps != 0 && frames_of(old(data)@).len() == 0 ==> r == Err::<usize, GainError>(
            GainError::NoValidFrames,
        ) && final(data)@ == old(data)@,
        gain_steps != 0 && frames_of(old(data)@).len() > 0 ==> r == Ok::<usize, GainError>(
            frames_of(old(data)@).len() as usize,
        ) && final(data)@ == gains_applied(
            old(data)@,
            gain_fields(old(data)@),
            gain_steps as int,
            GainMode::Saturate,
        ),
{
    apply_gain_with_mode(data, gain_steps, GainMode::Saturate)
}

/// Changes every `global_gain` field by `gain_steps`, clamping or wrapping
/// as `mode` says, and returns the number of frames. A change of 0 leaves the
/// buffer untouched; a buffer without frames is refused and left untouched.
/// Each field ends up holding its old value changed by `gain_steps`, and all
/// other bits keep their value.
pub fn apply_gain_with_mode(data: &mut Vec<u8>, gain_steps: i32, mode: GainMode) -> (r: Result<
    usize,
    GainError,
>)
    ensures
        gain_steps == 0 ==> r == Ok::<usize, GainError>(0) && final(data)@ == old(data)@,
        gain_steps != 0 && frames_of(old(data)@).len() == 0 ==> r == Err::<usize, GainError>(
            GainError::NoValidFrames,
        ) && final(data)@ == old(data)@,
        gain_steps != 0 && frames_of(old(data)@).len() > 0 ==> r == Ok::<usize, GainError>(
            frames_of(old(data)@).len() as usize,
        ) && final(data)@ == gains_applied(
            old(data)@,
            gain_fields(old(data)@),
            gain_steps as int,
            mode,
        ),
        final(data)@.len() == old(data)@.len(),
        forall|k: int|
            0 <= k < gain_fields(old(data)@).len() ==> field_value(
                final(data)@,
                #[trigger] gain_fields(old(data)@)[k].byte_offset as int,
                gain_fields(old(data)@)[k].bit_offset,
            ) == adjusted(
                field_value(
                    old(data)@,
                    gain_fields(old(data)@)[k].byte_offset as int,
                    gain_fields(old(data)@)[k].bit_offset,
                ),
                gain_steps as int,
                mode,
            ),
        forall|i: int|
            0 <= i < old(data)@.len() && !touched(gain_fields(old(data)@), i)
                ==> #[trigger] final(data)@[i] == old(data)@[i],
{
    let ghost d0 = data@;
    let _len = data.len();
    proof {
        lemma_fields_spaced(d0, None);
        lemma_gains_applied(d0, gain_fields(d0), gain_steps as int, mode);
    }
    if gain_steps == 0 {
        proof {
            lemma_no_change(d0, gain_fields(d0), mode);
        }
        return Ok(0);
    }
    let frames = iterate_frames(data.as_slice());
    if frames.len() == 0 {
        assert(gain_fields(d0) =~= seq![]);
        return Err(GainError::NoValidFrames);
    }
    let locs = collect_locations(data.as_slice(), &frames, None);
    apply_to_locations(data, &locs, gain_steps, mode);
    Ok(frames.len())
}

/// A change of 0 steps changes no field.
proof fn lemma_no_change(d: Seq<u8>, locs: Seq<GainLocation>, mode: GainMode)
    requires
        spaced(locs, d.len() as int),
    ensures
        forall|k: int|
            0 <= k < locs.len() ==> field_value(d, #[trigger] locs[k].byte_offset as int, locs[k].bit_offset)
                == adjusted(field_value(d, locs[k].byte_offset as int, locs[k].bit_offset), 0, mode),
{
    assert forall|k: int| 0 <= k < locs.len() implies field_value(
        d,
        #[trigger] locs[k].byte_offset as int,
        locs[k].bit_offset,
    ) == adjusted(field_value(d, locs[k].byte_offset as int, locs[k].bit_offset), 0, mode) by {
        let v = field_value(d, locs[k].byte_offset as int, locs[k].bit_offset);
        assert(v as int % 256 == v);
    }
}

/// The fields of a buffer, all or those of one channel, are spaced.
pub proof fn lemma_fields_spaced(d: Seq<u8>, sel: Option<Channel>)
    requires
        d.len() <= usize::MAX,
    ensures
        spaced(file_locations(frames_of(d), sel), d.len() as int),
{
    lemma_frames_from_ordered(d, id3v2_size(d));
    lemma_file_locations_spaced(frames_of(d), sel, d.len() as int);
}

/// Whether the first frame of the buffer is mono.
pub open spec fn is_mono(d: Seq<u8>) -> bool {
    frames_of(d).len() > 0 && frames_of(d)[0].header.channel_mode == ChannelMode::Mono
}

/// Changes the `global_gain` fields of one channel by `gain_steps` with
/// saturation and returns the number of frames. A change of 0 leaves the
/// buffer untouched; a buffer without frames, or whose first frame is mono,
/// is refused and left untouched. The fields of the other channel keep their
/// value.
pub fn apply_gain_channel(data: &mut Vec<u8>, channel: Channel, gain_steps: i32) -> (r: Result<
    usize,
    GainError,
>)
    ensures
        gain_steps == 0 ==> r == Ok::<usize, GainError>(0) && final(data)@ == old(data)@,
        gain_steps != 0 && frames_of(old(data)@).len() == 0 ==> r == Err::<usize, GainError>(
            GainError::NoValidFrames,
        ) && final(data)@ == old(data)@,
        gain_steps != 0 && is_mono(old(data)@) ==> r == Err::<usize, GainError>(
            GainError::MonoFile,
        ) && final(data)@ == old(data)@,
        gain_steps != 0 && frames_of(old(data)@).len() > 0 && !is_mono(old(data)@) ==> r == Ok::<
            usize,
            GainError,
        >(frames_of(old(data)@).len() as usize) && final(data)@ == gains_applied(
            old(data)@,
            file_locations(frames_of(old(data)@), Some(channel)),
            gain_steps as int,
            GainMode::Saturate,
        ),
        final(data)@.len() == old(data)@.len(),
        forall|i: int|
            0 <= i < old(data)@.len() && !touched(
                file_locations(frames_of(old(data)@), Some(channel)),
                i,
            ) ==> #[trigger] final(data)@[i] == old(data)@[i],
{
    let ghost d0 = data@;
    let _len = data.len();
    proof {
        lemma_fields_spaced(d0, Some(channel));
        lemma_gains_applied(
            d0,
            file_locations(frames_of(d0), Some(channel)),
            gain_steps as int,
            GainMode::Saturate,
        );
    }
    if gain_steps == 0 {
        return Ok(0);
    }
    let frames = iterate_frames(data.as_slice());
    if frames.len() == 0 {
        return Err(GainError::NoValidFrames);
    }
    if frames[0].header.channel_mode.channel_count() == 1 {
        return Err(GainError::MonoFile);
    }
    let locs = collect_locations(data.as_slice(), &frames, Some(channel));
    apply_to_locations(data, &locs, gain_steps, GainMode::Saturate);
    Ok(frames.len())
}

/// Statistics of the `global_gain` fields of a buffer.
#[derive(Debug, Clone, Copy, PartialEq, Eq, Structural)]
pub struct Mp3Analysis {
    /// Number of frames.
    pub frame_count: usize,
    /// Version of the first frame.
    pub mpeg_version: MpegVersion,
    /// Channel mode of the first frame.
    pub channel_mode: ChannelMode,
    /// Smallest field value.
    pub min_gain: u8,
    /// Largest field value.
    pub max_gain: u8,
    /// Sum of all field values.
    pub total_gain: u128,
    /// Number of fields.
    pub gain_count: usize,
    /// Steps that the largest field can rise before it reaches 255.
    pub headroom_steps: i32,
}

impl Mp3Analysis {
    /// The headroom in tenths of a dB, at 1.5 dB per step.
    pub fn headroom_tenths_db(&self) -> (r: i32)
        requires
            0 <= self.headroom_steps <= 255,
        ensures
            r == self.headroom_steps * 15,
    {
        self.headroom_steps * 15
    }
}

pub open spec fn min_of(s: Seq<u8>) -> u8
    decreases s.len(),
{
    if s.len() == 0 {
        255
    } else if min_of(s.drop_last()) <= s.last() {
        min_of(s.drop_last())
    } else {
        s.last()
    }
}

pub open spec fn max_of(s: Seq<u8>) -> u8
    decreases s.len(),
{
    if s.len() == 0 {
        0
    } else if max_of(s.drop_last()) >= s.last() {
        max_of(s.drop_last())
    } else {
        s.last()
    }
}

pub open spec fn sum_of(s: Seq<u8>) -> int
    decreases s.len(),
{
    if s.len() == 0 {
        0
    } else {
        sum_of(s.drop_last()) + s.last()
    }
}

proof fn lemma_sum_bound(s: Seq<u8>)
    ensures
        0 <= sum_of(s) <= 255 * s.len(),
    decreases s.len(),
{
    if s.len() > 0 {
        lemma_sum_bound(s.drop_last());
    }
}

/// Reads the statistics of the `global_gain` fields of `data`; a buffer
/// without frames is refused.
pub fn analyze(data: &[u8]) -> (r: Result<Mp3Analysis, GainError>)
    ensures
        frames_of(data@).len() == 0 ==> r == Err::<Mp3Analysis, GainError>(
            GainError::NoValidFrames,
        ),
        frames_of(data@).len() > 0 ==> r is Ok,
        r matches Ok(a) ==> {
            let fs = frames_of(data@);
            let vals = field_values(data@, gain_fields(data@));
            &&& a.frame_count == fs.len()
            &&& a.mpeg_version == fs[0].header.version
            &&& a.channel_mode == fs[0].header.channel_mode
            &&& a.min_gain == min_of(vals)
            &&& a.max_gain == max_of(vals)
            &&& a.total_gain == sum_of(vals)
            &&& a.gain_count == vals.len()
            &&& a.headroom_steps == 255 - a.max_gain
        },
{
    let frames = iterate_frames(data);
    if frames.len() == 0 {
        return Err(GainError::NoValidFrames);
    }
    let locs = collect_locations(data, &frames, None);
    let _len = data.len();
    proof {
        lemma_fields_spaced(data@, None);
    }
    let ghost vals = field_values(data@, locs@);
    let mut min_gain: u8 = 255;
    let mut max_gain: u8 = 0;
    let mut total_gain: u128 = 0;
    let mut m: usize = 0;
    while m < locs.len()
        invariant
            m <= locs.len(),
            vals == field_values(data@, locs@),
            spaced(locs@, data@.len() as int),
            min_gain == min_of(vals.take(m as int)),
            max_gain == max_of(vals.take(m as int)),
            total_gain == sum_of(vals.take(m as int)),
        decreases locs.len() - m,
    {
        let loc = locs[m];
        proof {
            assert(vals.take(m + 1).drop_last() =~= vals.take(m as int));
            lemma_sum_bound(vals.take(m as int));
        }
        let gain = read_gain_at(data, &loc);
        if gain < min_gain {
            min_gain = gain;
        }
        if gain > max_gain {
            max_gain = gain;
        }
        total_gain = total_gain + gain as u128;
        m = m + 1;
    }
    assert(vals.take(m as int) =~= vals);
    Ok(
        Mp3Analysis {
            frame_count: frames.len(),
            mpeg_version: frames[0].header.version,
            channel_mode: frames[0].header.channel_mode,
            min_gain,
            max_gain,
            total_gain,
            gain_count: locs.len(),
            headroom_steps: 255 - max_gain as i32,
        },
    )
}

proof fn lemma_bytes_from_field(a: u8, b: u8, a2: u8, b2: u8, off: u8)
    requires
        0 < off < 8,
        a2 >> ((8 - off) as u8) == a >> ((8 - off) as u8),
        b2 & (0xFFu8 >> off) == b & (0xFFu8 >> off),
        ((a2 << off) as u8) | (b2 >> ((8 - off) as u8)) == ((a << off) as u8) | (b >> ((8
            - off) as u8)),
    ensures
        a2 == a,
        b2 == b,
{
    assert(a2 == a && b2 == b) by (bit_vector)
        requires
            0 < off < 8,
            a2 >> ((8 - off) as u8) == a >> ((8 - off) as u8),
            b2 & (0xFFu8 >> off) == b & (0xFFu8 >> off),
            ((a2 << off) as u8) | (b2 >> ((8 - off) as u8)) == ((a << off) as u8) | (b >> ((8
                - off) as u8)),
    ;
}

/// A change of `s` steps followed by a change of `-s` steps gives back the
/// starting buffer, byte for byte and so field for field, when no field
/// saturated in the first change and the fields found after it are the same.
pub proof fn lemma_gain_round_trip(d: Seq<u8>, s: int)
    requires
        d.len() <= usize::MAX,
        gain_fields(gains_applied(d, gain_fields(d), s, GainMode::Saturate)) == gain_fields(d),
        forall|k: int|
            0 <= k < gain_fields(d).len() ==> 0 <= field_value(
                d,
                #[trigger] gain_fields(d)[k].byte_offset as int,
                gain_fields(d)[k].bit_offset,
            ) + s <= 255,
    ensures
        ({
            let g = gains_applied(d, gain_fields(d), s, GainMode::Saturate);
            gains_applied(g, gain_fields(g), -s, GainMode::Saturate) == d
        }),
{
    let f = gain_fields(d);
    let g = gains_applied(d, f, s, GainMode::Saturate);
    lemma_fields_spaced(d, None);
    lemma_gains_applied(d, f, s, GainMode::Saturate);
    lemma_gains_applied(g, f, -s, GainMode::Saturate);
    let h = gains_applied(g, f, -s, GainMode::Saturate);
    assert forall|k: int| 0 <= k < f.len() implies field_value(
        h,
        #[trigger] f[k].byte_offset as int,
        f[k].bit_offset,
    ) == field_value(d, f[k].byte_offset as int, f[k].bit_offset) by {
        let l = f[k];
        assert(field_value(h, l.byte_offset as int, l.bit_offset) == adjusted(
            field_value(g, l.byte_offset as int, l.bit_offset),
            -s,
            GainMode::Saturate,
        ));
        assert(field_value(g, l.byte_offset as int, l.bit_offset) == adjusted(
            field_value(d, l.byte_offset as int, l.bit_offset),
            s,
            GainMode::Saturate,
        ));
    }
    assert forall|i: int| 0 <= i < d.len() implies #[trigger] h[i] == d[i] by {
        if touched(f, i) {
            let k = choose|k: int|
                0 <= k < f.len() && (#[trigger] f[k].byte_offset == i || (f[k].bit_offset != 0
                    && f[k].byte_offset + 1 == i));
            let l = f[k];
            let idx = l.byte_offset as int;
            let off = l.bit_offset;
            assert(field_value(h, idx, off) == field_value(d, idx, off));
            assert(neighbours_kept(d, g, l) && neighbours_kept(g, h, l));
            if off != 0 {
                lemma_bytes_from_field(d[idx], d[idx + 1], h[idx], h[idx + 1], off);
            }
        } else {
            assert(g[i] == d[i]);
        }
    }
    assert(h =~= d);
}

} // verus!
