use snake::codec::{decode_highscores, default_game_mode_bytes, encode_highscores};
use snake::highscore::{HighscoreEntry, DEFAULT_DURATION};
use snake::utils::format_duration;

fn entry(
    name: &str,
    score: u64,
    duration: u32,
    mode: &str,
    game_mode: &str,
    time: &str,
) -> HighscoreEntry {
    HighscoreEntry {
        name: name.as_bytes().to_vec(),
        score,
        duration,
        mode: mode.as_bytes().to_vec(),
        game_mode: game_mode.as_bytes().to_vec(),
        time: time.as_bytes().to_vec(),
    }
}

#[test]
fn encode_writes_the_expected_bytes() {
    let list = vec![entry(
        "ada",
        7,
        61000,
        "Keyboard",
        "Fast Snake",
        "2024-01-02 03:04:05",
    )];
    let blob = encode_highscores(&list);
    let expected = "[{\"name\":\"ada\",\"score\":7,\"duration\":61000,\"mode\":\"Keyboard\",\"gameMode\":\"Fast Snake\",\"time\":\"2024-01-02 03:04:05\"}]";
    assert_eq!(blob, expected.as_bytes().to_vec());
}

#[test]
fn round_trip_preserves_every_record() {
    let list = vec![
        entry("ada", 7, 61000, "Keyboard", "Fast Snake", "2024-01-02 03:04:05"),
        entry("bob", 0, 0, "Touch", "Long Snake", "2023-12-31 23:59:59"),
        entry("", u64::MAX, u32::MAX, "", "", ""),
    ];
    let blob = encode_highscores(&list);
    let back = decode_highscores(&blob).expect("decode failed");
    assert_eq!(back, list);
}

#[test]
fn round_trip_preserves_names_that_need_escaping() {
    let list = vec![entry(
        "a\"b\\c\nd\te\u{1}",
        3,
        1000,
        "Keyboard",
        "Fast Snake",
        "2024-01-01 00:00:00",
    )];
    let blob = encode_highscores(&list);
    let back = decode_highscores(&blob).expect("decode failed");
    assert_eq!(back, list);
}

#[test]
fn round_trip_of_the_empty_leaderboard() {
    let list: Vec<HighscoreEntry> = Vec::new();
    let blob = encode_highscores(&list);
    assert_eq!(blob, b"[]".to_vec());
    let back = decode_highscores(&blob).expect("decode failed");
    assert!(back.is_empty());
}

#[test]
fn legacy_records_get_defaulted_fields() {
    let blob = "[{\"name\":\"old\",\"score\":12,\"mode\":\"Touch\",\"time\":\"2019-05-05 05:05:05\"}]"
    .as_bytes()
    .to_vec();
    let back = decode_highscores(&blob).expect("decode failed");
    assert_eq!(back.len(), 1);
    assert_eq!(back[0].name, b"old".to_vec());
    assert_eq!(back[0].score, 12);
    assert_eq!(back[0].duration, DEFAULT_DURATION);
    assert_eq!(back[0].game_mode, default_game_mode_bytes());
    assert_eq!(back[0].mode, b"Touch".to_vec());
}

#[test]
fn legacy_record_with_duration_but_no_game_mode() {
    let blob = "[{\"name\":\"old\",\"score\":1,\"duration\":2500,\"mode\":\"Keyboard\",\"time\":\"2019-05-05 05:05:05\"}]"
    .as_bytes()
    .to_vec();
    let back = decode_highscores(&blob).expect("decode failed");
    assert_eq!(back[0].duration, 2500);
    assert_eq!(back[0].game_mode, b"Fast Snake".to_vec());
}

#[test]
fn decode_tolerates_whitespace_between_tokens() {
    let blob = " [ {\"name\" : \"a\" , \"score\" : 3 ,\n\t\"mode\" : \"Touch\" , \"time\" : \"2024-01-01 00:00:00\" } ] "
    .as_bytes()
    .to_vec();
    let back = decode_highscores(&blob).expect("decode failed");
    assert_eq!(back.len(), 1);
    assert_eq!(back[0].score, 3);
}

#[test]
fn decode_handles_standard_string_escapes() {
    let blob =
        b"[{\"name\":\"a\\\"b\\\\c\\/d\\n\\t\\u0041\",\"score\":0,\"mode\":\"k\",\"time\":\"t\"}]"
            .to_vec();
    let back = decode_highscores(&blob).expect("decode failed");
    assert_eq!(back[0].name, b"a\"b\\c/d\n\tA".to_vec());
}

#[test]
fn unreadable_blobs_are_rejected() {
    assert!(decode_highscores(&b"".to_vec()).is_none());
    assert!(decode_highscores(&b"null".to_vec()).is_none());
    assert!(decode_highscores(&b"[".to_vec()).is_none());
    assert!(decode_highscores(&b"[]x".to_vec()).is_none());
    assert!(decode_highscores(&b"[{}]".to_vec()).is_none());
    // unknown or misordered keys are not part of the written format
    let wrong_order = "[{\"score\":1,\"name\":\"a\",\"mode\":\"k\",\"time\":\"t\"}]"
    .as_bytes()
    .to_vec();
    assert!(decode_highscores(&wrong_order).is_none());
    // a score that cannot be held is rejected rather than mangled
    let huge = b"[{\"name\":\"a\",\"score\":99999999999999999999999,\"mode\":\"k\",\"time\":\"t\"}]"
        .to_vec();
    assert!(decode_highscores(&huge).is_none());
}

#[test]
fn format_duration_renders_minutes_and_seconds() {
    assert_eq!(format_duration(0), b"00:00".to_vec());
    assert_eq!(format_duration(999), b"00:00".to_vec());
    assert_eq!(format_duration(1000), b"00:01".to_vec());
    assert_eq!(format_duration(59999), b"00:59".to_vec());
    assert_eq!(format_duration(65000), b"01:05".to_vec());
    assert_eq!(format_duration(DEFAULT_DURATION), b"99:59".to_vec());
    assert_eq!(format_duration(6000000), b"100:00".to_vec());
    assert_eq!(format_duration(u32::MAX), b"71582:47".to_vec());
}
