use saveowl::digest::{content_hash, game_key, BlobHasher};
use saveowl::ids::{id_text, parse_id_text, trim_text};

#[test]
fn id_text_is_hyphenated_lowercase() {
    assert_eq!(id_text(0x550e8400_e29b_41d4_a716_446655440000), "550e8400-e29b-41d4-a716-446655440000");
    assert_eq!(id_text(0), "00000000-0000-0000-0000-000000000000");
    assert_eq!(id_text(u128::MAX), "ffffffff-ffff-ffff-ffff-ffffffffffff");
}

#[test]
fn head_text_reads_back() {
    for id in [0u128, 1, 0x550e8400_e29b_41d4_a716_446655440000, u128::MAX] {
        assert_eq!(parse_id_text(&id_text(id)), Some(id));
        let with_newline = format!("{}\n", id_text(id));
        assert_eq!(parse_id_text(&with_newline), Some(id));
    }
}

#[test]
fn id_parsing_accepts_the_crates_formats() {
    let id = 0x550e8400_e29b_41d4_a716_446655440000u128;
    assert_eq!(parse_id_text("  550E8400-E29B-41D4-A716-446655440000\r\n"), Some(id));
    assert_eq!(parse_id_text("550e8400e29b41d4a716446655440000"), Some(id));
    assert_eq!(parse_id_text("{550e8400-e29b-41d4-a716-446655440000}"), Some(id));
    assert_eq!(parse_id_text("not an id"), None);
    assert_eq!(parse_id_text(""), None);
}

#[test]
fn trimming() {
    assert_eq!(trim_text("  a b \t\n"), "a b");
    assert_eq!(trim_text("\u{3000}x\u{2028}"), "x");
    assert_eq!(trim_text("   "), "");
    assert_eq!(trim_text("é"), "é");
}

#[test]
fn blob_names_are_blake3_hex() {
    assert_eq!(content_hash(b""), "af1349b9f5f9a1a6a0404dea36dcc9499bcb25c9adc112b7cc9a93cae41f3262");
    assert_eq!(content_hash(b"abc").len(), 64);
    assert_ne!(content_hash(b"abc"), content_hash(b"abd"));
}

#[test]
fn chunked_hashing_matches_one_shot() {
    let data: Vec<u8> = (0..5000u32).map(|i| (i * 7 % 251) as u8).collect();
    let mut h = BlobHasher::new();
    h.update(&data[..1234]);
    h.update(&data[1234..1234]);
    h.update(&data[1234..]);
    assert_eq!(h.hex_digest(), content_hash(&data));
    assert_eq!(BlobHasher::new().hex_digest(), content_hash(b""));
}

#[test]
fn game_key_is_short_hash_of_lowercase_path() {
    assert_eq!(game_key(""), "af1349b9f5f9a1a6");
    let k = game_key(r"C:\Games\Owl\OWL.exe");
    assert_eq!(k.len(), 16);
    assert!(k.chars().all(|c| c.is_ascii_hexdigit() && !c.is_ascii_uppercase()));
    assert_eq!(k, game_key(r"c:\games\owl\owl.EXE"));
    assert_eq!(k, content_hash(r"c:\games\owl\owl.exe".as_bytes())[..16]);
    assert_ne!(k, game_key(r"C:\Games\Owl\Other.exe"));
}

#[test]
fn new_ids_are_random_version_four() {
    for _ in 0..16 {
        let id = saveowl::ids::new_id();
        assert_eq!((id >> 76) & 0xf, 4);
        assert_eq!((id >> 62) & 0x3, 2);
        assert_eq!(id_text(id).chars().nth(14), Some('4'));
    }
    assert_ne!(saveowl::ids::new_id(), saveowl::ids::new_id());
}
