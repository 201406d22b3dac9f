use mp3rgain::ape::{
    delete_ape_tag, find_ape_footer, read_ape_tag, read_u32_le, remove_ape_tag,
    serialize_ape_tag, write_ape_tag, ApeTag, TAG_MP3GAIN_MINMAX, TAG_MP3GAIN_UNDO,
};

fn pairs(t: &ApeTag) -> Vec<(String, String)> {
    t.items
        .iter()
        .map(|i| (i.key.clone(), i.value.clone()))
        .collect()
}

#[test]
fn tag_get_set_remove() {
    let mut t = ApeTag::new();
    assert!(t.is_empty());
    t.set("artist", "Someone");
    t.set("Title", "Song");
    assert_eq!(t.get("ARTIST"), Some("Someone"));
    assert_eq!(t.get("title"), Some("Song"));
    assert_eq!(t.get("album"), None);
    // keys are stored upper-cased; an existing item keeps its key
    t.set("ArTiSt", "Other");
    assert_eq!(
        pairs(&t),
        vec![
            ("ARTIST".to_string(), "Other".to_string()),
            ("TITLE".to_string(), "Song".to_string())
        ]
    );
    t.remove("Artist");
    assert_eq!(pairs(&t), vec![("TITLE".to_string(), "Song".to_string())]);
    t.remove("nothing");
    assert!(!t.is_empty());
}

#[test]
fn undo_value_format() {
    let mut t = ApeTag::new();
    t.set_undo_gain(2, 2, false);
    assert_eq!(t.get(TAG_MP3GAIN_UNDO), Some("+002,+002,N"));
    assert_eq!(t.get_undo_gain(), Some(2));
    t.set_undo_gain(-10, 5, true);
    assert_eq!(t.get(TAG_MP3GAIN_UNDO), Some("-010,+005,W"));
    assert_eq!(t.get_undo_gain(), Some(-10));
    t.set_undo_gain(1234, 0, false);
    assert_eq!(t.get(TAG_MP3GAIN_UNDO), Some("+1234,+000,N"));
    t.set_minmax(7, 200);
    assert_eq!(t.get(TAG_MP3GAIN_MINMAX), Some("7,200"));
    t.set(TAG_MP3GAIN_UNDO, " +7 ,x");
    assert_eq!(t.get_undo_gain(), Some(7));
    t.set(TAG_MP3GAIN_UNDO, "abc");
    assert_eq!(t.get_undo_gain(), None);
    assert_eq!(ApeTag::new().get_undo_gain(), None);
}

#[test]
fn serialize_and_read_back() {
    let mut t = ApeTag::new();
    t.set("mp3gain_undo", "+002,+002,N");
    t.set("Comment", "héllo wörld");
    let bytes = serialize_ape_tag(&t).unwrap();
    assert_eq!(&bytes[..8], b"APETAGEX");
    assert_eq!(read_u32_le(&bytes, 8), 2000);
    let items_len = bytes.len() - 64;
    assert_eq!(read_u32_le(&bytes, 12) as usize, items_len + 32);
    assert_eq!(read_u32_le(&bytes, 16), 2);
    assert_eq!(read_u32_le(&bytes, 20), 0xA000_0000);
    assert_eq!(read_u32_le(&bytes, bytes.len() - 12), 0x8000_0000);
    let mut file = vec![0x11u8; 50];
    file.extend_from_slice(&bytes);
    assert_eq!(find_ape_footer(&file), Some(file.len() - 32));
    let back = read_ape_tag(&file).unwrap();
    assert_eq!(pairs(&back), pairs(&t));
    assert_eq!(back.get("MP3GAIN_UNDO"), Some("+002,+002,N"));
    assert_eq!(serialize_ape_tag(&ApeTag::new()), Some(Vec::new()));
}

#[test]
fn tag_before_legacy_tag() {
    let mut t = ApeTag::new();
    t.set("A", "1");
    let audio = vec![0x22u8; 40];
    let mut legacy = vec![0u8; 128];
    legacy[..3].copy_from_slice(b"TAG");
    let mut file = audio.clone();
    file.extend_from_slice(&legacy);
    let written = write_ape_tag(&file, &t).unwrap();
    let ser = serialize_ape_tag(&t).unwrap();
    let mut expected = audio.clone();
    expected.extend_from_slice(&ser);
    expected.extend_from_slice(&legacy);
    assert_eq!(written, expected);
    assert_eq!(find_ape_footer(&written), Some(written.len() - 160));
    assert_eq!(pairs(&read_ape_tag(&written).unwrap()), pairs(&t));
    // removing keeps the audio and the legacy tag
    let mut kept = audio.clone();
    kept.extend_from_slice(&legacy);
    assert_eq!(remove_ape_tag(&written), kept);
    assert_eq!(delete_ape_tag(&written), kept);
    // rewriting replaces the tag
    t.set("B", "2");
    let rewritten = write_ape_tag(&written, &t).unwrap();
    assert_eq!(pairs(&read_ape_tag(&rewritten).unwrap()), pairs(&t));
    assert_eq!(&rewritten[..40], &audio[..]);
}

#[test]
fn no_tag_and_bad_tags() {
    assert!(read_ape_tag(&[0u8; 10]).is_none());
    assert!(read_ape_tag(&[0u8; 100]).is_none());
    assert_eq!(remove_ape_tag(&[5u8; 100]), vec![5u8; 100]);
    let mut t = ApeTag::new();
    t.set("K", "V");
    let mut bytes = serialize_ape_tag(&t).unwrap();
    let n = bytes.len();
    // another version is refused
    bytes[n - 24] = 0xD1;
    assert!(read_ape_tag(&bytes).is_none());
}

#[test]
fn footer_without_header_removed_by_declared_size() {
    // items + footer only, header-present flag clear
    let mut t = ApeTag::new();
    t.set("K", "V");
    let full = serialize_ape_tag(&t).unwrap();
    let mut tag_no_header = full[32..].to_vec();
    let n = tag_no_header.len();
    tag_no_header[n - 12..n - 8].copy_from_slice(&0u32.to_le_bytes());
    let mut file = vec![0x33u8; 20];
    file.extend_from_slice(&tag_no_header);
    assert_eq!(remove_ape_tag(&file), vec![0x33u8; 20]);
    assert_eq!(pairs(&read_ape_tag(&file).unwrap()), pairs(&t));
}
