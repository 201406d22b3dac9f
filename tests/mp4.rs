use mp3rgain::loudness::{detect_file_type, AudioFileType};
use mp3rgain::mp4::{
    delete_replaygain_tags, find_box, find_box_in_container, is_mp4_data, parse_freeform_tag,
    read_be32, read_replaygain_tags, serialize_freeform_tag, update_box_size, update_mp4_metadata,
    write_replaygain_tags, BoxHeader, FreeformTag, Mp4Error, ReplayGainTags, MOOV,
};

fn mp4_box(t: &[u8; 4], content: &[u8]) -> Vec<u8> {
    let mut b = ((content.len() + 8) as u32).to_be_bytes().to_vec();
    b.extend_from_slice(t);
    b.extend_from_slice(content);
    b
}

fn ftyp() -> Vec<u8> {
    mp4_box(b"ftyp", b"M4A \0\0\0\0M4A ")
}

fn stco(offsets: &[u32]) -> Vec<u8> {
    let mut c = vec![0u8; 4];
    c.extend_from_slice(&(offsets.len() as u32).to_be_bytes());
    for o in offsets {
        c.extend_from_slice(&o.to_be_bytes());
    }
    mp4_box(b"stco", &c)
}

fn co64(offsets: &[u64]) -> Vec<u8> {
    let mut c = vec![0u8; 4];
    c.extend_from_slice(&(offsets.len() as u32).to_be_bytes());
    for o in offsets {
        c.extend_from_slice(&o.to_be_bytes());
    }
    mp4_box(b"co64", &c)
}

fn trak(table: Vec<u8>) -> Vec<u8> {
    mp4_box(
        b"trak",
        &mp4_box(b"mdia", &mp4_box(b"minf", &mp4_box(b"stbl", &table))),
    )
}

fn tags() -> ReplayGainTags {
    let mut t = ReplayGainTags::new();
    t.track_gain = Some("+3.50 dB".to_string());
    t.track_peak = Some("0.987650".to_string());
    t
}

/// Finds a box by a path of types from the top level; the content of a
/// `meta` box starts after four bytes of version and flags.
fn find_path(data: &[u8], path: &[&[u8; 4]]) -> Option<(usize, BoxHeader)> {
    let (mut pos, mut h) = find_box(data, u32::from_be_bytes(*path[0]))?;
    let mut parent = path[0];
    for t in &path[1..] {
        let skip = if parent == b"meta" { 4 } else { 0 };
        let inner = pos + h.header_size as usize + skip;
        let size = h.size as usize - h.header_size as usize - skip;
        let (p, hh) = find_box_in_container(data, inner, size, u32::from_be_bytes(**t))?;
        pos = p;
        h = hh;
        parent = t;
    }
    Some((pos, h))
}

fn offsets32(data: &[u8]) -> Vec<u32> {
    let (pos, _) = find_path(data, &[b"moov", b"trak", b"mdia", b"minf", b"stbl", b"stco"]).unwrap();
    let count = read_be32(data, pos + 12) as usize;
    (0..count).map(|i| read_be32(data, pos + 16 + 4 * i)).collect()
}

#[test]
fn test_is_mp4_detection() {
    // Minimal valid ftyp header for M4A
    let m4a_header: Vec<u8> = vec![
        0x00, 0x00, 0x00, 0x14, // size = 20
        b'f', b't', b'y', b'p', // type = ftyp
        b'M', b'4', b'A', b' ', // brand = M4A
        0x00, 0x00, 0x00, 0x00, // minor version
        b'M', b'4', b'A', b' ', // compatible brand
    ];

    // This test would need a temp file, but we can verify the logic
    assert!(matches!(&m4a_header[8..12], b"M4A "));
    assert!(is_mp4_data(&m4a_header));
}

#[test]
fn mp4_detection_and_file_type() {
    assert!(is_mp4_data(&mp4_box(b"ftyp", b"isom\0\0\0\0")));
    assert!(!is_mp4_data(&mp4_box(b"ftyp", b"qt  \0\0\0\0")));
    assert!(!is_mp4_data(&mp4_box(b"free", b"M4A \0\0\0\0")));
    assert!(!is_mp4_data(&[0xFF, 0xFB, 0x90, 0x00]));
    assert_eq!(detect_file_type(&ftyp()), AudioFileType::Aac);
    assert_eq!(detect_file_type(&[0xFF, 0xFB, 0x90, 0x00]), AudioFileType::Mp3);
}

#[test]
fn test_freeform_tag_serialization() {
    let tag = FreeformTag {
        namespace: "com.apple.iTunes".to_string(),
        name: "replaygain_track_gain".to_string(),
        value: "+3.50 dB".to_string(),
    };

    let serialized = serialize_freeform_tag(&tag);

    // Should start with ---- box header
    assert_eq!(&serialized[4..8], b"----");

    // Parse it back
    let parsed = parse_freeform_tag(&serialized[8..]).unwrap();
    assert_eq!(parsed.namespace, tag.namespace);
    assert_eq!(parsed.name, tag.name);
    assert_eq!(parsed.value, tag.value);
}

#[test]
fn freeform_layout() {
    let tag = FreeformTag {
        namespace: "ns".to_string(),
        name: "nm".to_string(),
        value: "v".to_string(),
    };
    let s = serialize_freeform_tag(&tag);
    let mut expected = Vec::new();
    expected.extend_from_slice(&(8u32 + 14 + 14 + 17).to_be_bytes());
    expected.extend_from_slice(b"----");
    expected.extend_from_slice(&14u32.to_be_bytes());
    expected.extend_from_slice(b"mean\0\0\0\0ns");
    expected.extend_from_slice(&14u32.to_be_bytes());
    expected.extend_from_slice(b"name\0\0\0\0nm");
    expected.extend_from_slice(&17u32.to_be_bytes());
    expected.extend_from_slice(b"data\0\0\0\0\0\0\0\x01v");
    assert_eq!(s, expected);
    assert!(parse_freeform_tag(&s[8..20]).is_none());
}

#[test]
fn replaygain_tags_to_freeform() {
    let mut t = tags();
    t.album_gain = Some("+2.00 dB".to_string());
    t.album_peak = Some("0.999990".to_string());
    assert!(!t.is_empty());
    let list = t.to_freeform_tags();
    assert_eq!(list.len(), 4);
    assert_eq!(list[0].name, "replaygain_track_gain");
    assert_eq!(list[3].value, "0.999990");
    assert!(ReplayGainTags::new().is_empty());
    assert_eq!(ReplayGainTags::new().to_freeform_tags().len(), 0);
}

#[test]
fn chunk_offsets_follow_moov_growth() {
    let mdat_content = vec![0xABu8; 64];
    let head = ftyp();
    let mut moov_content = trak(stco(&[0, 0]));
    let moov_len = 8 + moov_content.len();
    let mdat_start = (head.len() + moov_len + 8) as u32;
    moov_content = trak(stco(&[mdat_start, mdat_start + 32]));
    let mut file = head.clone();
    file.extend_from_slice(&mp4_box(b"moov", &moov_content));
    file.extend_from_slice(&mp4_box(b"mdat", &mdat_content));
    let before = offsets32(&file);
    assert_eq!(before, vec![mdat_start, mdat_start + 32]);

    let out = write_replaygain_tags(&file, &tags()).unwrap();
    let delta = out.len() as i64 - file.len() as i64;
    assert!(delta > 0);
    let after = offsets32(&out);
    for (a, b) in before.iter().zip(after.iter()) {
        assert_eq!(*b as i64, *a as i64 + delta);
    }
    // the media data moved by exactly that much
    let (mdat_pos, _) = find_box(&out, u32::from_be_bytes(*b"mdat")).unwrap();
    assert_eq!(mdat_pos as i64, mdat_start as i64 - 8 + delta);
    // moov grew by delta
    let (_, moov) = find_box(&out, MOOV).unwrap();
    assert_eq!(moov.size as i64, moov_len as i64 + delta);
    // the values read back
    let read = read_replaygain_tags(&out);
    assert_eq!(read.track_gain, Some("+3.50 dB".to_string()));
    assert_eq!(read.track_peak, Some("0.987650".to_string()));
    assert_eq!(read.album_gain, None);
}

#[test]
fn co64_offsets_follow_too() {
    let head = ftyp();
    let moov_content = trak(co64(&[1000, 5_000_000_000]));
    let mut file = head.clone();
    file.extend_from_slice(&mp4_box(b"moov", &moov_content));
    file.extend_from_slice(&mp4_box(b"mdat", &[1, 2, 3]));
    let out = update_mp4_metadata(&file, &tags()).unwrap();
    let delta = (out.len() - file.len()) as u64;
    let (pos, _) = find_path(&out, &[b"moov", b"trak", b"mdia", b"minf", b"stbl", b"co64"]).unwrap();
    let hi = read_be32(&out, pos + 16) as u64;
    let lo = read_be32(&out, pos + 20) as u64;
    assert_eq!((hi << 32) | lo, 1000 + delta);
    let hi = read_be32(&out, pos + 24) as u64;
    let lo = read_be32(&out, pos + 28) as u64;
    assert_eq!((hi << 32) | lo, 5_000_000_000 + delta);
}

#[test]
fn offsets_unchanged_when_mdat_first() {
    let head = ftyp();
    let mut file = head.clone();
    file.extend_from_slice(&mp4_box(b"mdat", &[9u8; 16]));
    file.extend_from_slice(&mp4_box(b"moov", &trak(stco(&[28]))));
    let out = update_mp4_metadata(&file, &tags()).unwrap();
    assert!(out.len() > file.len());
    assert_eq!(offsets32(&out), vec![28]);
}

#[test]
fn rewrite_existing_ilst_keeps_other_items() {
    let head = ftyp();
    let other = mp4_box(b"\xa9nam", b"title bytes");
    let mut file = head.clone();
    file.extend_from_slice(&mp4_box(b"moov", &trak(stco(&[]))));
    let first = update_mp4_metadata(&file, &tags()).unwrap();
    // put a non-ReplayGain item into the ilst by writing it in front
    let (ilst_pos, ilst) = find_path(&first, &[b"moov", b"udta", b"meta", b"ilst"]).unwrap();
    let mut with_other = first[..ilst_pos + 8].to_vec();
    with_other.extend_from_slice(&other);
    with_other.extend_from_slice(&first[ilst_pos + 8..]);
    let grow = other.len() as i128;
    let (moov_pos, _) = find_box(&with_other, MOOV).unwrap();
    let (udta_pos, _) = find_path(&with_other, &[b"moov", b"udta"]).unwrap();
    let (meta_pos, _) = find_path(&with_other, &[b"moov", b"udta", b"meta"]).unwrap();
    update_box_size(&mut with_other, moov_pos, grow);
    update_box_size(&mut with_other, udta_pos, grow);
    update_box_size(&mut with_other, meta_pos, grow);
    update_box_size(&mut with_other, ilst_pos, grow);
    let _ = ilst;

    let mut new_tags = ReplayGainTags::new();
    new_tags.album_gain = Some("-1.25 dB".to_string());
    let out = update_mp4_metadata(&with_other, &new_tags).unwrap();
    let read = read_replaygain_tags(&out);
    assert_eq!(read.track_gain, None);
    assert_eq!(read.album_gain, Some("-1.25 dB".to_string()));
    let (ilst_pos, ilst) = find_path(&out, &[b"moov", b"udta", b"meta", b"ilst"]).unwrap();
    assert_eq!(&out[ilst_pos + 8..ilst_pos + 8 + other.len()], &other[..]);
    assert_eq!(ilst.size as usize, 8 + other.len() + (out.len() - ilst_pos - 8 - other.len()));

    // deleting leaves only the other item
    let cleared = delete_replaygain_tags(&out).unwrap();
    let read = read_replaygain_tags(&cleared);
    assert_eq!(read.album_gain, None);
    let (_, ilst) = find_path(&cleared, &[b"moov", b"udta", b"meta", b"ilst"]).unwrap();
    assert_eq!(ilst.size as usize, 8 + other.len());
}

#[test]
fn udta_without_meta_gets_one() {
    let head = ftyp();
    let mut file = head.clone();
    let moov_content = [trak(stco(&[])), mp4_box(b"udta", b"")].concat();
    file.extend_from_slice(&mp4_box(b"moov", &moov_content));
    let out = update_mp4_metadata(&file, &tags()).unwrap();
    let (_, udta) = find_path(&out, &[b"moov", b"udta"]).unwrap();
    let (_, meta) = find_path(&out, &[b"moov", b"udta", b"meta"]).unwrap();
    assert_eq!(udta.size, 8 + meta.size);
    assert_eq!(read_replaygain_tags(&out).track_peak, Some("0.987650".to_string()));
}

#[test]
fn no_moov_is_refused() {
    let file = ftyp();
    assert_eq!(update_mp4_metadata(&file, &tags()), Err(Mp4Error::NoMoov));
    assert_eq!(read_replaygain_tags(&file).track_gain, None);
    let mut bad = ftyp();
    bad.extend_from_slice(&[0, 0, 1, 0, b'm', b'o', b'o', b'v']);
    assert_eq!(update_mp4_metadata(&bad, &tags()), Err(Mp4Error::Malformed));
    assert_eq!(Mp4Error::NoMoov.message(), "No moov box found in MP4 file");
}

#[test]
fn box_header_forms() {
    let mut d = vec![0, 0, 0, 1];
    d.extend_from_slice(b"mdat");
    d.extend_from_slice(&40u64.to_be_bytes());
    let h = BoxHeader::read(&d, 0).unwrap();
    assert_eq!((h.size, h.header_size, h.content_size()), (40, 16, 24));
    assert_eq!(h.type_str(), "mdat");
    let h = BoxHeader::read(&[0, 0, 0, 0, b'f', b'r', b'e', b'e'], 0).unwrap();
    assert_eq!((h.size, h.content_size()), (0, 0));
    assert!(BoxHeader::read(&d[..12], 0).is_none());
    assert!(BoxHeader::read(&d, 10).is_none());
}

#[test]
fn box_size_patch() {
    let mut d = vec![0, 0, 0, 20, b'a', b'b', b'c', b'd'];
    update_box_size(&mut d, 0, 5);
    assert_eq!(read_be32(&d, 0), 25);
    update_box_size(&mut d, 0, -30);
    assert_eq!(read_be32(&d, 0), (25i64 - 30).rem_euclid(1 << 32) as u32);
    let mut one = vec![0, 0, 0, 1];
    update_box_size(&mut one, 0, 5);
    assert_eq!(one, vec![0, 0, 0, 1]);
}

#[test]
fn replaygain_names_match_without_case() {
    let item = serialize_freeform_tag(&FreeformTag {
        namespace: "com.apple.iTunes".to_string(),
        name: "REPLAYGAIN_TRACK_GAIN".to_string(),
        value: "-4.00 dB".to_string(),
    });
    let other_ns = serialize_freeform_tag(&FreeformTag {
        namespace: "org.example".to_string(),
        name: "replaygain_track_peak".to_string(),
        value: "1.0".to_string(),
    });
    let hdlr = mp4_box(b"hdlr", &[0u8; 25]);
    let ilst = mp4_box(b"ilst", &[item, other_ns.clone()].concat());
    let mut meta_content = vec![0u8; 4];
    meta_content.extend_from_slice(&hdlr);
    meta_content.extend_from_slice(&ilst);
    let udta = mp4_box(b"udta", &mp4_box(b"meta", &meta_content));
    let mut file = ftyp();
    file.extend_from_slice(&mp4_box(b"moov", &udta));
    let read = read_replaygain_tags(&file);
    assert_eq!(read.track_gain, Some("-4.00 dB".to_string()));
    assert_eq!(read.track_peak, None);
    // a rewrite drops the upper-case item and keeps the foreign one
    let out = delete_replaygain_tags(&file).unwrap();
    let (pos, h) = find_path(&out, &[b"moov", b"udta", b"meta", b"ilst"]).unwrap();
    assert_eq!(&out[pos + 8..pos + h.size as usize], &other_ns[..]);
}
