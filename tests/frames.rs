use mp3rgain::bits::{read_gain_at, write_gain_at, GainLocation};
use mp3rgain::frame::{
    calculate_gain_locations, iterate_frames, parse_header, skip_id3v2, ChannelMode, MpegVersion,
};

#[test]
fn test_parse_valid_header() {
    let header = [0xFF, 0xFB, 0x90, 0x00];
    let parsed = parse_header(&header);
    assert!(parsed.is_some());
    let h = parsed.unwrap();
    assert_eq!(h.version, MpegVersion::Mpeg1);
    assert_eq!(h.bitrate_kbps, 128);
    assert_eq!(h.sample_rate, 44100);
}

#[test]
fn test_parse_invalid_header() {
    assert!(parse_header(&[0x00, 0x00, 0x00, 0x00]).is_none());
    assert!(parse_header(&[0xFF, 0xFF, 0x90, 0x00]).is_none());
}

#[test]
fn test_bit_operations() {
    let mut data = vec![0xAB, 0xCD, 0xEF, 0x12, 0x34];

    let loc_aligned = GainLocation {
        byte_offset: 1,
        bit_offset: 0,
    };
    assert_eq!(read_gain_at(&data, &loc_aligned), 0xCD);

    let loc_unaligned = GainLocation {
        byte_offset: 1,
        bit_offset: 4,
    };
    assert_eq!(read_gain_at(&data, &loc_unaligned), 0xDE);

    write_gain_at(&mut data, &loc_aligned, 0x42);
    assert_eq!(data[1], 0x42);

    data = vec![0xAB, 0xCD, 0xEF, 0x12, 0x34];
    write_gain_at(&mut data, &loc_unaligned, 0x99);
    assert_eq!(data[1], 0xC9);
    assert_eq!(data[2], 0x9F);
}

#[test]
fn test_skip_id3v2() {
    let data_no_tag = vec![0xFF, 0xFB, 0x90, 0x00];
    assert_eq!(skip_id3v2(&data_no_tag), 0);

    let data_with_tag = vec![b'I', b'D', b'3', 0x04, 0x00, 0x00, 0x00, 0x00, 0x00, 0x00];
    assert_eq!(skip_id3v2(&data_with_tag), 10);
}

#[test]
fn skip_id3v2_synchsafe_size() {
    // size bytes 0x01 0x02 0x03 0x04: 1<<21 | 2<<14 | 3<<7 | 4
    let data = vec![b'I', b'D', b'3', 4, 0, 0, 0x01, 0x02, 0x03, 0x04];
    assert_eq!(skip_id3v2(&data), 10 + (1 << 21) + (2 << 14) + (3 << 7) + 4);
    // the high bit of each size byte is ignored
    let data = vec![b'I', b'D', b'3', 4, 0, 0, 0x80, 0x80, 0x80, 0x81];
    assert_eq!(skip_id3v2(&data), 11);
}

#[test]
fn bit_round_trip_every_offset() {
    for bit in 0u8..8 {
        for value in [0u8, 1, 0x55, 0xAA, 0x7F, 0xFF] {
            let mut data = vec![0x3C, 0xA5, 0x5A, 0xC3];
            let original = data.clone();
            let loc = GainLocation {
                byte_offset: 1,
                bit_offset: bit,
            };
            write_gain_at(&mut data, &loc, value);
            assert_eq!(read_gain_at(&data, &loc), value);
            // writing back the old value restores the buffer
            let old_value = read_gain_at(&original, &loc);
            write_gain_at(&mut data, &loc, old_value);
            assert_eq!(data, original);
        }
    }
}

#[test]
fn bit_field_in_last_byte() {
    let mut data = vec![0x00, 0xF0];
    let loc = GainLocation {
        byte_offset: 1,
        bit_offset: 4,
    };
    // only the bits that fit in the buffer are read; the rest are zero
    assert_eq!(read_gain_at(&data, &loc), 0x00);
    write_gain_at(&mut data, &loc, 0xAB);
    assert_eq!(data, vec![0x00, 0xFA]);
    assert_eq!(read_gain_at(&data, &loc), 0xA0);
    // a field past the end reads as 0 and is not written
    let past = GainLocation {
        byte_offset: 5,
        bit_offset: 0,
    };
    assert_eq!(read_gain_at(&data, &past), 0);
    write_gain_at(&mut data, &past, 7);
    assert_eq!(data, vec![0x00, 0xFA]);
}

#[test]
fn header_frame_size_and_modes() {
    let h = parse_header(&[0xFF, 0xFB, 0x90, 0x00]).unwrap();
    assert_eq!(h.frame_size, 417);
    assert_eq!(h.channel_mode, ChannelMode::Stereo);
    assert!(!h.has_crc);
    let h = parse_header(&[0xFF, 0xFB, 0x92, 0xC0]).unwrap();
    assert_eq!(h.frame_size, 418);
    assert!(h.padding);
    assert_eq!(h.channel_mode, ChannelMode::Mono);
    // MPEG2, 64 kbps, 22050 Hz, with CRC
    let h = parse_header(&[0xFF, 0xF2, 0x80, 0x40]).unwrap();
    assert_eq!(h.version, MpegVersion::Mpeg2);
    assert!(h.has_crc);
    assert_eq!(h.bitrate_kbps, 64);
    assert_eq!(h.sample_rate, 22050);
    assert_eq!(h.frame_size, 576 * 64 * 125 / 22050);
    assert_eq!(h.channel_mode, ChannelMode::JointStereo);
    // MPEG2.5
    let h = parse_header(&[0xFF, 0xE3, 0x84, 0x80]).unwrap();
    assert_eq!(h.version, MpegVersion::Mpeg25);
    assert_eq!(h.sample_rate, 12000);
    assert_eq!(h.channel_mode, ChannelMode::DualChannel);
    // layer II, free bitrate, bad bitrate, reserved rate, reserved version
    assert!(parse_header(&[0xFF, 0xFD, 0x90, 0x00]).is_none());
    assert!(parse_header(&[0xFF, 0xFB, 0x00, 0x00]).is_none());
    assert!(parse_header(&[0xFF, 0xFB, 0xF0, 0x00]).is_none());
    assert!(parse_header(&[0xFF, 0xFB, 0x9C, 0x00]).is_none());
    assert!(parse_header(&[0xFF, 0xEB, 0x90, 0x00]).is_none());
    assert!(parse_header(&[0xFF, 0xFB, 0x90]).is_none());
}

#[test]
fn gain_locations_of_frames() {
    let h = parse_header(&[0xFF, 0xFB, 0x90, 0x00]).unwrap();
    let locs = calculate_gain_locations(100, &h);
    let got: Vec<(usize, u8)> = locs.iter().map(|l| (l.byte_offset, l.bit_offset)).collect();
    assert_eq!(got, vec![(109, 1), (116, 4), (123, 7), (131, 2)]);
    let mono = parse_header(&[0xFF, 0xFB, 0x90, 0xC0]).unwrap();
    let got: Vec<(usize, u8)> = calculate_gain_locations(0, &mono)
        .iter()
        .map(|l| (l.byte_offset, l.bit_offset))
        .collect();
    assert_eq!(got, vec![(8, 7), (16, 2)]);
    let crc2 = parse_header(&[0xFF, 0xF2, 0x80, 0x40]).unwrap();
    let got: Vec<(usize, u8)> = calculate_gain_locations(0, &crc2)
        .iter()
        .map(|l| (l.byte_offset, l.bit_offset))
        .collect();
    assert_eq!(got, vec![(9, 7), (17, 6)]);
}

#[test]
fn scan_skips_garbage_and_id3() {
    let mut data = vec![b'I', b'D', b'3', 4, 0, 0, 0, 0, 0, 3, 0xFF, 0xFF, 0xFF];
    data.extend_from_slice(&[0x00, 0x11]);
    let start = data.len();
    for _ in 0..3 {
        let mut frame = vec![0u8; 417];
        frame[..4].copy_from_slice(&[0xFF, 0xFB, 0x90, 0x00]);
        data.extend_from_slice(&frame);
    }
    let frames = iterate_frames(&data);
    assert_eq!(frames.len(), 3);
    assert_eq!(frames[0].offset, start);
    assert_eq!(frames[1].offset, start + 417);
    assert_eq!(frames[2].offset, start + 834);
}

#[test]
fn scan_rejects_frame_without_following_sync() {
    let mut data = vec![0u8; 417 + 10];
    data[..4].copy_from_slice(&[0xFF, 0xFB, 0x90, 0x00]);
    // the next frame would start at 417, which holds no sync word
    assert_eq!(iterate_frames(&data).len(), 0);
    // a last frame that ends exactly at the end is accepted
    let mut data = vec![0u8; 417];
    data[..4].copy_from_slice(&[0xFF, 0xFB, 0x90, 0x00]);
    assert_eq!(iterate_frames(&data).len(), 1);
    // one that runs past the end is not
    data.truncate(416);
    assert_eq!(iterate_frames(&data).len(), 0);
}

#[test]
fn version_and_mode_names() {
    assert_eq!(MpegVersion::Mpeg1.as_str(), "MPEG1");
    assert_eq!(MpegVersion::Mpeg25.as_str(), "MPEG2.5");
    assert_eq!(ChannelMode::JointStereo.as_str(), "Joint Stereo");
    assert_eq!(ChannelMode::Mono.channel_count(), 1);
    assert_eq!(ChannelMode::DualChannel.channel_count(), 2);
}
