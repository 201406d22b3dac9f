//! MPEG Layer III frame headers, the scan over a byte buffer that finds the
//! frames, and the positions of the `global_gain` fields inside a frame.

use vstd::prelude::*;
use crate::bits::GainLocation;
use vstd::arithmetic::div_mod::{lemma_div_is_ordered, lemma_div_by_multiple};

verus! {

/// MPEG generation of a frame.
#[derive(Debug, Clone, Copy, PartialEq, Eq, Structural)]
pub enum MpegVersion {
    Mpeg1,
    Mpeg2,
    Mpeg25,
}

impl MpegVersion {
    pub fn as_str(&self) -> (r: &'static str)
        ensures
            r@ == self.name(),
    {
        match self {
            MpegVersion::Mpeg1 => "MPEG1",
            MpegVersion::Mpeg2 => "MPEG2",
            MpegVersion::Mpeg25 => "MPEG2.5",
        }
    }

    pub open spec fn name(&self) -> Seq<char> {
        match self {
            MpegVersion::Mpeg1 => "MPEG1"@,
            MpegVersion::Mpeg2 => "MPEG2"@,
            MpegVersion::Mpeg25 => "MPEG2.5"@,
        }
    }
}

/// Channel mode of a frame.
#[derive(Debug, Clone, Copy, PartialEq, Eq, Structural)]
pub enum ChannelMode {
    Stereo,
    JointStereo,
    DualChannel,
    Mono,
}

impl ChannelMode {
    pub open spec fn channels(&self) -> int {
        match self {
            ChannelMode::Mono => 1,
            _ => 2,
        }
    }

    pub fn channel_count(&self) -> (r: usize)
        ensures
            r == self.channels(),
    {
        match self {
            ChannelMode::Mono => 1,
            _ => 2,
        }
    }

    pub open spec fn name(&self) -> Seq<char> {
        match self {
            ChannelMode::Stereo => "Stereo"@,
            ChannelMode::JointStereo => "Joint Stereo"@,
            ChannelMode::DualChannel => "Dual Channel"@,
            ChannelMode::Mono => "Mono"@,
        }
    }

    pub fn as_str(&self) -> (r: &'static str)
        ensures
            r@ == self.name(),
    {
        match self {
            ChannelMode::Stereo => "Stereo",
            ChannelMode::JointStereo => "Joint Stereo",
            ChannelMode::DualChannel => "Dual Channel",
            ChannelMode::Mono => "Mono",
        }
    }
}

/// A decoded 4-byte frame header.
#[derive(Debug, Clone, Copy, PartialEq, Eq, Structural)]
pub struct FrameHeader {
    pub version: MpegVersion,
    pub has_crc: bool,
    pub bitrate_kbps: u32,
    pub sample_rate: u32,
    pub padding: bool,
    pub channel_mode: ChannelMode,
    pub frame_size: usize,
}

impl FrameHeader {
    pub open spec fn granules(&self) -> int {
        match self.version {
            MpegVersion::Mpeg1 => 2,
            _ => 1,
        }
    }

    pub open spec fn side_info_start(&self) -> int {
        if self.has_crc {
            6
        } else {
            4
        }
    }

    pub fn granule_count(&self) -> (r: usize)
        ensures
            r == self.granules(),
    {
        match self.version {
            MpegVersion::Mpeg1 => 2,
            _ => 1,
        }
    }

    pub fn side_info_offset(&self) -> (r: usize)
        ensures
            r == self.side_info_start(),
    {
        if self.has_crc {
            6
        } else {
            4
        }
    }
}

/// Layer III bitrate in kbps for a bitrate index 1 to 14.
pub open spec fn bitrate_of(v: MpegVersion, idx: u8) -> u32 {
    match v {
        MpegVersion::Mpeg1 => match idx {
            1 => 32u32,
            2 => 40,
            3 => 48,
            4 => 56,
            5 => 64,
            6 => 80,
            7 => 96,
            8 => 112,
            9 => 128,
            10 => 160,
            11 => 192,
            12 => 224,
            13 => 256,
            _ => 320,
        },
        _ => match idx {
            1 => 8u32,
            2 => 16,
            3 => 24,
            4 => 32,
            5 => 40,
            6 => 48,
            7 => 56,
            8 => 64,
            9 => 80,
            10 => 96,
            11 => 112,
            12 => 128,
            13 => 144,
            _ => 160,
        },
    }
}

/// Sample rate in Hz for a sample-rate index 0 to 2.
pub open spec fn sample_rate_of(v: MpegVersion, idx: u8) -> u32 {
    match v {
        MpegVersion::Mpeg1 => if idx == 0 {
            44100u32
        } else if idx == 1 {
            48000
        } else {
            32000
        },
        MpegVersion::Mpeg2 => if idx == 0 {
            22050u32
        } else if idx == 1 {
            24000
        } else {
            16000
        },
        MpegVersion::Mpeg25 => if idx == 0 {
            11025u32
        } else if idx == 1 {
            12000
        } else {
            8000
        },
    }
}

pub open spec fn samples_per_frame(v: MpegVersion) -> int {
    match v {
        MpegVersion::Mpeg1 => 1152,
        _ => 576,
    }
}

/// The header that four bytes describe, or `None` when they are no Layer III
/// frame header: no sync word, a reserved version, another layer, a free or
/// bad bitrate index, or the reserved sample-rate index.
pub open spec fn header_of(b0: u8, b1: u8, b2: u8, b3: u8) -> Option<FrameHeader> {
    let vbits = (b1 >> 3u8) & 3u8;
    let bri = (b2 >> 4u8) & 15u8;
    let sri = (b2 >> 2u8) & 3u8;
    if b0 != 0xFF || (b1 & 0xE0u8) != 0xE0 || vbits == 1 || ((b1 >> 1u8) & 3u8) != 1 || bri == 0
        || bri == 15 || sri == 3 {
        None
    } else {
        let version = if vbits == 0 {
            MpegVersion::Mpeg25
        } else if vbits == 2 {
            MpegVersion::Mpeg2
        } else {
            MpegVersion::Mpeg1
        };
        let cbits = (b3 >> 6u8) & 3u8;
        let channel_mode = if cbits == 0 {
            ChannelMode::Stereo
        } else if cbits == 1 {
            ChannelMode::JointStereo
        } else if cbits == 2 {
            ChannelMode::DualChannel
        } else {
            ChannelMode::Mono
        };
        let bitrate = bitrate_of(version, bri);
        let rate = sample_rate_of(version, sri);
        let padding = (b2 & 2u8) != 0;
        Some(
            FrameHeader {
                version,
                has_crc: (b1 & 1u8) == 0,
                bitrate_kbps: bitrate,
                sample_rate: rate,
                padding,
                channel_mode,
                frame_size: (samples_per_frame(version) * bitrate * 125 / (rate as int) + (if padding {
                    1int
                } else {
                    0
                })) as usize,
            },
        )
    }
}

fn bitrate_for(v: MpegVersion, idx: u8) -> (r: u32)
    requires
        1 <= idx <= 14,
    ensures
        r == bitrate_of(v, idx),
{
    match v {
        MpegVersion::Mpeg1 => match idx {
            1 => 32,
            2 => 40,
            3 => 48,
            4 => 56,
            5 => 64,
            6 => 80,
            7 => 96,
            8 => 112,
            9 => 128,
            10 => 160,
            11 => 192,
            12 => 224,
            13 => 256,
            _ => 320,
        },
        _ => match idx {
            1 => 8,
            2 => 16,
            3 => 24,
            4 => 32,
            5 => 40,
            6 => 48,
            7 => 56,
            8 => 64,
            9 => 80,
            10 => 96,
            11 => 112,
            12 => 128,
            13 => 144,
            _ => 160,
        },
    }
}

fn sample_rate_for(v: MpegVersion, idx: u8) -> (r: u32)
    ensures
        r == sample_rate_of(v, idx),
{
    let row: [u32; 3] = match v {
        MpegVersion::Mpeg1 => [44100, 48000, 32000],
        MpegVersion::Mpeg2 => [22050, 24000, 16000],
        MpegVersion::Mpeg25 => [11025, 12000, 8000],
    };
    if idx == 0 {
        row[0]
    } else if idx == 1 {
        row[1]
    } else {
        row[2]
    }
}

/// Decodes the header held in four bytes.
pub fn decode_header(b0: u8, b1: u8, b2: u8, b3: u8) -> (r: Option<FrameHeader>)
    ensures
        r == header_of(b0, b1, b2, b3),
{
    if b0 != 0xFF || (b1 & 0xE0) != 0xE0 {
        return None;
    }
    let version_bits = (b1 >> 3u8) & 3u8;
    assert(version_bits <= 3) by (bit_vector)
        requires
            version_bits == (b1 >> 3u8) & 3u8,
    ;
    let version = if version_bits == 0 {
        MpegVersion::Mpeg25
    } else if version_bits == 2 {
        MpegVersion::Mpeg2
    } else if version_bits == 3 {
        MpegVersion::Mpeg1
    } else {
        return None;
    };
    if (b1 >> 1u8) & 3u8 != 1 {
        return None;
    }
    let has_crc = (b1 & 1u8) == 0;
    let bitrate_index = (b2 >> 4u8) & 15u8;
    assert(bitrate_index <= 15) by (bit_vector)
        requires
            bitrate_index == (b2 >> 4u8) & 15u8,
    ;
    if bitrate_index == 0 || bitrate_index == 15 {
        return None;
    }
    let bitrate_kbps = bitrate_for(version, bitrate_index);
    let sr_index = (b2 >> 2u8) & 3u8;
    if sr_index == 3 {
        return None;
    }
    let sample_rate = sample_rate_for(version, sr_index);
    let padding = (b2 & 2u8) != 0;
    let channel_bits = (b3 >> 6u8) & 3u8;
    let channel_mode = if channel_bits == 0 {
        ChannelMode::Stereo
    } else if channel_bits == 1 {
        ChannelMode::JointStereo
    } else if channel_bits == 2 {
        ChannelMode::DualChannel
    } else {
        ChannelMode::Mono
    };
    let samples: usize = match version {
        MpegVersion::Mpeg1 => 1152,
        _ => 576,
    };
    let padding_size: usize = if padding {
        1
    } else {
        0
    };
    assert(bitrate_kbps <= 320 && sample_rate >= 8000) by {
        assert(bitrate_of(version, bitrate_index) <= 320);
    }
    let frame_size = (samples * bitrate_kbps as usize * 125) / sample_rate as usize + padding_size;
    Some(
        FrameHeader {
            version,
            has_crc,
            bitrate_kbps,
            sample_rate,
            padding,
            channel_mode,
            frame_size,
        },
    )
}

/// Parses the frame header at the start of `header`; `None` when fewer than
/// four bytes are given or they hold no Layer III header.
pub fn parse_header(header: &[u8]) -> (r: Option<FrameHeader>)
    ensures
        header@.len() < 4 ==> r.is_none(),
        header@.len() >= 4 ==> r == header_of(header@[0], header@[1], header@[2], header@[3]),
{
    if header.len() < 4 {
        return None;
    }
    decode_header(header[0], header[1], header[2], header[3])
}

/// A header whose frame is long enough to hold its side information; every
/// decoded header is one.
pub open spec fn header_ok(h: FrameHeader) -> bool {
    &&& h.frame_size >= (if h.version == MpegVersion::Mpeg1 { 96int } else { 24 })
    &&& h.frame_size <= 1441
}

proof fn lemma_frame_size_bounds(spf: int, br: int, rate: int, lo: int)
    requires
        spf * br * 125 >= lo * rate,
        spf * br * 125 <= 1440 * rate,
        rate > 0,
        lo >= 0,
    ensures
        lo <= spf * br * 125 / rate <= 1440,
{
    lemma_div_is_ordered(lo * rate, spf * br * 125, rate);
    lemma_div_by_multiple(lo, rate);
    lemma_div_is_ordered(spf * br * 125, 1440 * rate, rate);
    lemma_div_by_multiple(1440, rate);
}

pub proof fn lemma_header_ok(b0: u8, b1: u8, b2: u8, b3: u8)
    ensures
        header_of(b0, b1, b2, b3) matches Some(h) ==> header_ok(h),
{
    if let Some(h) = header_of(b0, b1, b2, b3) {
        let bri = (b2 >> 4u8) & 15u8;
        let sri = (b2 >> 2u8) & 3u8;
        let br = bitrate_of(h.version, bri) as int;
        let rate = sample_rate_of(h.version, sri) as int;
        let spf = samples_per_frame(h.version);
        if h.version == MpegVersion::Mpeg1 {
            assert(32 <= br <= 320 && 32000 <= rate <= 48000);
            assert(spf * br * 125 >= 96 * rate && spf * br * 125 <= 1440 * rate)
                by (nonlinear_arith)
                requires
                    spf == 1152,
                    32 <= br <= 320,
                    32000 <= rate <= 48000,
            ;
            lemma_frame_size_bounds(spf, br, rate, 96);
        } else {
            assert(8 <= br <= 160 && 8000 <= rate <= 24000);
            assert(spf * br * 125 >= 24 * rate && spf * br * 125 <= 1440 * rate)
                by (nonlinear_arith)
                requires
                    spf == 576,
                    8 <= br <= 160,
                    8000 <= rate <= 24000,
            ;
            lemma_frame_size_bounds(spf, br, rate, 24);
        }
    }
}

/// Bits of side information that precede the first granule.
pub open spec fn bits_before_granules(h: FrameHeader) -> int {
    if h.version == MpegVersion::Mpeg1 {
        if h.channel_mode.channels() == 1 {
            18
        } else {
            20
        }
    } else if h.channel_mode.channels() == 1 {
        9
    } else {
        10
    }
}

/// Bits of side information that one granule of one channel takes.
pub open spec fn bits_per_granule_channel(h: FrameHeader) -> int {
    if h.version == MpegVersion::Mpeg1 {
        59
    } else {
        63
    }
}

/// Bit position, counted from the start of the side information, of the
/// `global_gain` field of block `k` (granule `k / channels`, channel
/// `k % channels`).
pub open spec fn gain_bit(h: FrameHeader, k: int) -> int {
    bits_before_granules(h) + k * bits_per_granule_channel(h) + 21
}

pub open spec fn gain_location_at(pos: int, h: FrameHeader, k: int) -> GainLocation {
    GainLocation {
        byte_offset: (pos + h.side_info_start() + gain_bit(h, k) / 8) as usize,
        bit_offset: (gain_bit(h, k) % 8) as u8,
    }
}

/// The `global_gain` fields of the frame at `pos`, granule by granule and,
/// within a granule, channel by channel.
pub open spec fn gain_locations(pos: int, h: FrameHeader) -> Seq<GainLocation> {
    Seq::new(
        (h.granules() * h.channel_mode.channels()) as nat,
        |k: int| gain_location_at(pos, h, k),
    )
}

/// The fields of a frame lie inside it, past its 4-byte header, each with a
/// following byte inside the frame, and each at least seven bytes past the one
/// before.
pub proof fn lemma_gain_locations_in_frame(pos: int, h: FrameHeader)
    requires
        header_ok(h),
        0 <= pos,
        pos + h.frame_size <= usize::MAX,
    ensures
        forall|k: int|
            0 <= k < h.granules() * h.channel_mode.channels() ==> {
                let l = #[trigger] gain_location_at(pos, h, k);
                &&& pos + 4 <= l.byte_offset
                &&& l.byte_offset + 2 <= pos + h.frame_size
                &&& l.bit_offset < 8
                &&& l.byte_offset == pos + h.side_info_start() + gain_bit(h, k) / 8
                &&& l.bit_offset == gain_bit(h, k) % 8
            },
        forall|k: int|
            0 <= k < h.granules() * h.channel_mode.channels() - 1 ==> #[trigger] gain_bit(h, k) / 8
                + 7 <= gain_bit(h, k + 1) / 8,
        h.granules() * h.channel_mode.channels() <= 4,
{
    assert forall|k: int| 0 <= k < h.granules() * h.channel_mode.channels() implies {
        let l = #[trigger] gain_location_at(pos, h, k);
        &&& pos + 4 <= l.byte_offset
        &&& l.byte_offset + 2 <= pos + h.frame_size
        &&& l.bit_offset < 8
        &&& l.byte_offset == pos + h.side_info_start() + gain_bit(h, k) / 8
        &&& l.bit_offset == gain_bit(h, k) % 8
    } by {
        assert(k == 0 || k == 1 || k == 2 || k == 3);
        assert(0 <= gain_bit(h, k) <= 218) by {
            if h.version == MpegVersion::Mpeg1 {
            } else {
            }
        }
    }
    assert forall|k: int| 0 <= k < h.granules() * h.channel_mode.channels() - 1 implies #[trigger] gain_bit(h, k) / 8
        + 7 <= gain_bit(h, k + 1) / 8 by {
        assert(k == 0 || k == 1 || k == 2);
    }
}

/// Computes the `global_gain` locations of the frame that starts at
/// `frame_offset`.
pub fn calculate_gain_locations(frame_offset: usize, header: &FrameHeader) -> (r: Vec<GainLocation>)
    requires
        header_ok(*header),
        frame_offset + header.frame_size <= usize::MAX,
    ensures
        r@ == gain_locations(frame_offset as int, *header),
{
    let mut locations: Vec<GainLocation> = Vec::new();
    let side_info_start = frame_offset + header.side_info_offset();
    let num_channels = header.channel_mode.channel_count();
    let num_granules = header.granule_count();
    let bits_before: usize = match header.version {
        MpegVersion::Mpeg1 => if num_channels == 1 {
            18
        } else {
            20
        },
        _ => if num_channels == 1 {
            9
        } else {
            10
        },
    };
    let bits_per: usize = match header.version {
        MpegVersion::Mpeg1 => 59,
        _ => 63,
    };
    let n = num_granules * num_channels;
    proof {
        lemma_gain_locations_in_frame(frame_offset as int, *header);
    }
    let mut k: usize = 0;
    while k < n
        invariant
            n == header.granules() * header.channel_mode.channels(),
            n <= 4,
            k <= n,
            side_info_start == frame_offset + header.side_info_start(),
            bits_before == bits_before_granules(*header),
            bits_per == bits_per_granule_channel(*header),
            header_ok(*header),
            frame_offset + header.frame_size <= usize::MAX,
            locations@ =~= gain_locations(frame_offset as int, *header).take(k as int),
        decreases n - k,
    {
        let global_gain_bit = bits_before + k * bits_per + 21;
        let loc = GainLocation {
            byte_offset: side_info_start + global_gain_bit / 8,
            bit_offset: (global_gain_bit % 8) as u8,
        };
        locations.push(loc);
        k = k + 1;
        assert(locations@ =~= gain_locations(frame_offset as int, *header).take(k as int));
    }
    locations
}

/// Number of bytes taken by an ID3v2 tag at the start of `d`: ten header
/// bytes and the synchsafe size (seven bits from each of four bytes), or 0
/// when `d` does not start with such a tag.
pub open spec fn id3v2_size(d: Seq<u8>) -> int {
    if d.len() < 10 || d[0] != 0x49 || d[1] != 0x44 || d[2] != 0x33 {
        0
    } else {
        10 + (d[6] & 0x7Fu8) * 0x200000 + (d[7] & 0x7Fu8) * 0x4000 + (d[8] & 0x7Fu8) * 0x80 + (d[9]
            & 0x7Fu8)
    }
}

proof fn lemma_low_seven_bits(x: u8)
    ensures
        x & 0x7Fu8 < 128,
{
    assert(x & 0x7Fu8 < 128) by (bit_vector);
}

/// Returns the offset at which the audio starts, past a leading ID3v2 tag.
pub fn skip_id3v2(data: &[u8]) -> (r: usize)
    ensures
        r == id3v2_size(data@),
{
    if data.len() < 10 || data[0] != 0x49 || data[1] != 0x44 || data[2] != 0x33 {
        return 0;
    }
    let a = data[6] & 0x7F;
    let b = data[7] & 0x7F;
    let c = data[8] & 0x7F;
    let e = data[9] & 0x7F;
    proof {
        lemma_low_seven_bits(data@[6]);
        lemma_low_seven_bits(data@[7]);
        lemma_low_seven_bits(data@[8]);
        lemma_low_seven_bits(data@[9]);
    }
    10 + (a as usize) * 0x200000 + (b as usize) * 0x4000 + (c as usize) * 0x80 + (e as usize)
}

/// A frame that the scan accepted: where it starts and its header.
#[derive(Debug, Clone, Copy, PartialEq, Eq, Structural)]
pub struct Frame {
    pub offset: usize,
    pub header: FrameHeader,
}

pub open spec fn header_at(d: Seq<u8>, pos: int) -> Option<FrameHeader> {
    header_of(d[pos], d[pos + 1], d[pos + 2], d[pos + 3])
}

/// A frame that ends at `next` is accepted when another sync word follows
/// it, or when fewer than two bytes follow and it does not pass the end.
pub open spec fn frame_accepted(d: Seq<u8>, next: int) -> bool {
    if next + 2 <= d.len() {
        d[next] == 0xFF && (d[next + 1] & 0xE0u8) == 0xE0
    } else {
        next <= d.len()
    }
}

#[via_fn]
proof fn frames_from_decreases(d: Seq<u8>, pos: int) {
    if 0 <= pos && pos + 4 <= d.len() {
        lemma_header_ok(d[pos], d[pos + 1], d[pos + 2], d[pos + 3]);
    }
}

/// The frames that the scan accepts from `pos` on: at each position a header
/// is decoded; an accepted frame is taken and the scan goes on at its end,
/// and otherwise it goes on one byte further.
pub open spec fn frames_from(d: Seq<u8>, pos: int) -> Seq<Frame>
    decreases d.len() - pos,
    via frames_from_decreases
{
    if pos < 0 || pos + 4 > d.len() {
        seq![]
    } else {
        match header_at(d, pos) {
            Some(h) => if frame_accepted(d, pos + h.frame_size) {
                seq![Frame { offset: pos as usize, header: h }] + frames_from(
                    d,
                    pos + h.frame_size,
                )
            } else {
                frames_from(d, pos + 1)
            },
            None => frames_from(d, pos + 1),
        }
    }
}

/// The frames of a whole buffer, past any leading ID3v2 tag.
pub open spec fn frames_of(d: Seq<u8>) -> Seq<Frame> {
    frames_from(d, id3v2_size(d))
}

/// Frames that follow one another inside a buffer of `len` bytes.
pub open spec fn frames_ordered(fs: Seq<Frame>, len: int) -> bool {
    &&& forall|j: int| 0 <= j < fs.len() ==> header_ok(#[trigger] fs[j].header)
    &&& forall|j: int|
        0 <= j < fs.len() ==> #[trigger] fs[j].offset + fs[j].header.frame_size <= len
    &&& forall|j: int|
        0 <= j < fs.len() - 1 ==> #[trigger] fs[j].offset + fs[j].header.frame_size
            <= fs[j + 1].offset
}

pub proof fn lemma_frames_from_ordered(d: Seq<u8>, pos: int)
    requires
        d.len() <= usize::MAX,
    ensures
        frames_ordered(frames_from(d, pos), d.len() as int),
        forall|j: int| 0 <= j < frames_from(d, pos).len() ==> pos <= #[trigger] frames_from(d, pos)[j].offset,
    decreases d.len() - pos,
{
    let fs = frames_from(d, pos);
    if pos < 0 || pos + 4 > d.len() {
    } else {
        lemma_header_ok(d[pos], d[pos + 1], d[pos + 2], d[pos + 3]);
        match header_at(d, pos) {
            Some(h) => if frame_accepted(d, pos + h.frame_size) {
                lemma_frames_from_ordered(d, pos + h.frame_size);
                let rest = frames_from(d, pos + h.frame_size);
                assert(fs == seq![Frame { offset: pos as usize, header: h }] + rest);
                assert forall|j: int| 0 <= j < fs.len() - 1 implies #[trigger] fs[j].offset
                    + fs[j].header.frame_size <= fs[j + 1].offset by {
                    if j > 0 {
                        assert(fs[j] == rest[j - 1]);
                        assert(fs[j + 1] == rest[j]);
                    }
                }
                assert forall|j: int|
                    0 <= j < fs.len() implies #[trigger] fs[j].offset + fs[j].header.frame_size
                    <= d.len() && header_ok(fs[j].header) && pos <= fs[j].offset by {
                    if j > 0 {
                        assert(fs[j] == rest[j - 1]);
                    }
                }
            } else {
                lemma_frames_from_ordered(d, pos + 1);
            },
            None => {
                lemma_frames_from_ordered(d, pos + 1);
            },
        }
    }
}

/// Finds the frames of `data`, past any leading ID3v2 tag.
pub fn iterate_frames(data: &[u8]) -> (r: Vec<Frame>)
    ensures
        r@ == frames_of(data@),
{
    let file_size = data.len();
    let start = skip_id3v2(data);
    let mut pos = start;
    let mut frames: Vec<Frame> = Vec::new();
    while pos <= file_size && file_size - pos >= 4
        invariant
            file_size == data@.len(),
            frames@ + frames_from(data@, pos as int) == frames_of(data@),
        decreases file_size - pos,
    {
        proof {
            lemma_header_ok(data@[pos as int], data@[pos + 1], data@[pos + 2], data@[pos + 3]);
        }
        match decode_header(data[pos], data[pos + 1], data[pos + 2], data[pos + 3]) {
            Some(header) => {
                let fits = header.frame_size <= file_size - pos;
                let next_pos = if fits {
                    pos + header.frame_size
                } else {
                    file_size
                };
                let valid_frame = if !fits {
                    false
                } else if file_size - next_pos >= 2 {
                    data[next_pos] == 0xFF && (data[next_pos + 1] & 0xE0) == 0xE0
                } else {
                    true
                };
                if valid_frame {
                    let ghost old_frames = frames@;
                    frames.push(Frame { offset: pos, header });
                    assert(frames@ + frames_from(data@, next_pos as int) =~= old_frames + (seq![
                        Frame { offset: pos, header },
                    ] + frames_from(data@, next_pos as int)));
                    pos = next_pos;
                } else {
                    pos = pos + 1;
                }
            },
            None => {
                pos = pos + 1;
            },
        }
    }
    assert(frames_from(data@, pos as int) =~= seq![]);
    assert(frames@ =~= frames@ + frames_from(data@, pos as int));
    frames
}

} // verus!
