use snake::highscore::{add_entry, add_score, entry_le_exec, HighscoreEntry, DEFAULT_DURATION};

fn entry(
    name: &str,
    score: u64,
    duration: u32,
    mode: &str,
    game_mode: &str,
    time: &str,
) -> HighscoreEntry {
    HighscoreEntry {
        name: name.as_bytes().to_vec(),
        score,
        duration,
        mode: mode.as_bytes().to_vec(),
        game_mode: game_mode.as_bytes().to_vec(),
        time: time.as_bytes().to_vec(),
    }
}

fn assert_sorted(list: &[HighscoreEntry]) {
    for w in list.windows(2) {
        assert!(entry_le_exec(&w[0], &w[1]), "list not sorted");
    }
}

#[test]
fn order_compares_game_mode_first() {
    let a = entry("a", 1, 10, "Touch", "Fast Snake", "2024-01-01 10:00:00");
    let b = entry("b", 99, 1, "Keyboard", "Long Snake", "2020-01-01 10:00:00");
    assert!(entry_le_exec(&a, &b));
    assert!(!entry_le_exec(&b, &a));
}

#[test]
fn order_compares_input_mode_second() {
    let a = entry("a", 1, 10, "Keyboard", "Fast Snake", "2024-01-01 10:00:00");
    let b = entry("b", 99, 1, "Touch", "Fast Snake", "2020-01-01 10:00:00");
    assert!(entry_le_exec(&a, &b));
    assert!(!entry_le_exec(&b, &a));
}

#[test]
fn order_ranks_higher_scores_first() {
    let a = entry("a", 30, 10, "Keyboard", "Fast Snake", "2024-01-01 10:00:00");
    let b = entry("b", 7, 1, "Keyboard", "Fast Snake", "2020-01-01 10:00:00");
    assert!(entry_le_exec(&a, &b));
    assert!(!entry_le_exec(&b, &a));
}

#[test]
fn order_breaks_score_ties_by_shorter_duration() {
    let a = entry("a", 7, 1000, "Keyboard", "Fast Snake", "2024-01-01 10:00:00");
    let b = entry("b", 7, 2000, "Keyboard", "Fast Snake", "2020-01-01 10:00:00");
    assert!(entry_le_exec(&a, &b));
    assert!(!entry_le_exec(&b, &a));
}

#[test]
fn order_breaks_full_ties_by_earlier_timestamp() {
    let a = entry("a", 7, 1000, "Keyboard", "Fast Snake", "2020-01-01 10:00:00");
    let b = entry("b", 7, 1000, "Keyboard", "Fast Snake", "2024-01-01 10:00:00");
    assert!(entry_le_exec(&a, &b));
    assert!(!entry_le_exec(&b, &a));
}

#[test]
fn inserts_keep_the_list_sorted() {
    let mut list: Vec<HighscoreEntry> = Vec::new();
    let specs: [(&str, u64, u32, &str, &str, &str); 6] = [
        ("eve", 4, 300, "Touch", "Fast Snake", "2024-03-01 10:00:00"),
        ("bob", 9, 100, "Keyboard", "Fast Snake", "2024-01-01 10:00:00"),
        ("kim", 9, 50, "Keyboard", "Fast Snake", "2024-02-01 10:00:00"),
        ("amy", 2, 700, "Keyboard", "Long Snake", "2024-01-05 10:00:00"),
        ("joe", 9, 100, "Keyboard", "Fast Snake", "2023-01-01 10:00:00"),
        ("zed", 1, 900, "Touch", "Fast Snake", "2024-04-01 10:00:00"),
    ];
    for (name, score, duration, mode, gm, time) in specs {
        list = add_entry(list, entry(name, score, duration, mode, gm, time));
        assert_sorted(&list);
        assert!(list.len() <= 20);
    }
    // the full expected order
    let names: Vec<&[u8]> = list.iter().map(|e| e.name.as_slice()).collect();
    assert_eq!(
        names,
        vec![
            b"kim".as_slice(), // Fast/Keyboard, 9, shortest duration
            b"joe".as_slice(), // Fast/Keyboard, 9, 100 ms, earlier time
            b"bob".as_slice(),
            b"eve".as_slice(), // Fast/Touch after all Fast/Keyboard
            b"zed".as_slice(),
            b"amy".as_slice(), // Long Snake sorts after Fast Snake
        ]
    );
}

#[test]
fn the_list_is_capped_at_twenty() {
    let mut list: Vec<HighscoreEntry> = Vec::new();
    for k in 0..30u64 {
        let time = format!("2024-01-01 10:00:{:02}", k % 60);
        list = add_entry(
            list,
            entry("p", k, 1000, "Keyboard", "Fast Snake", &time),
        );
        assert!(list.len() <= 20);
    }
    assert_eq!(list.len(), 20);
    assert_sorted(&list);
    // the twenty best scores survive: 29 down to 10
    assert_eq!(list[0].score, 29);
    assert_eq!(list[19].score, 10);
}

#[test]
fn add_score_stamps_a_plausible_time_and_returns_it() {
    let (list, time) = add_score(
        Vec::new(),
        b"p1".to_vec(),
        5,
        b"Keyboard".to_vec(),
        b"Fast Snake".to_vec(),
        60000,
    );
    assert_eq!(list.len(), 1);
    assert!(time.len() >= 19, "time: {:?}", time);
    assert_eq!(list[0].time, time);
    assert_eq!(list[0].name, b"p1".to_vec());
    assert_eq!(list[0].score, 5);
    assert_eq!(list[0].duration, 60000);
    // YYYY-MM-DD HH:MM:SS separators
    assert_eq!(time[4], b'-');
    assert_eq!(time[7], b'-');
    assert_eq!(time[10], b' ');
    assert_eq!(time[13], b':');
    assert_eq!(time[16], b':');
}

#[test]
fn add_score_keeps_existing_records() {
    let existing = vec![entry(
        "old",
        50,
        100,
        "Keyboard",
        "Fast Snake",
        "2020-01-01 00:00:00",
    )];
    let (list, _time) = add_score(
        existing,
        b"new".to_vec(),
        2,
        b"Keyboard".to_vec(),
        b"Fast Snake".to_vec(),
        5000,
    );
    assert_eq!(list.len(), 2);
    assert_eq!(list[0].name, b"old".to_vec());
    assert_eq!(list[1].name, b"new".to_vec());
}

#[test]
fn an_unsorted_stored_list_is_fully_resorted_on_insert() {
    // a blob written by someone else may arrive in any order
    let unsorted = vec![
        entry("c", 1, 900, "Touch", "Long Snake", "2024-01-03 10:00:00"),
        entry("a", 9, 100, "Keyboard", "Fast Snake", "2024-01-01 10:00:00"),
        entry("b", 5, 500, "Keyboard", "Fast Snake", "2024-01-02 10:00:00"),
    ];
    let list = add_entry(
        unsorted,
        entry("d", 7, 200, "Keyboard", "Fast Snake", "2024-01-04 10:00:00"),
    );
    assert_sorted(&list);
    let names: Vec<&[u8]> = list.iter().map(|e| e.name.as_slice()).collect();
    assert_eq!(
        names,
        vec![
            b"a".as_slice(),
            b"d".as_slice(),
            b"b".as_slice(),
            b"c".as_slice(),
        ]
    );
}

#[test]
fn default_duration_matches_the_sentinel() {
    assert_eq!(DEFAULT_DURATION, (99 * 60 + 59) * 1000);
}
