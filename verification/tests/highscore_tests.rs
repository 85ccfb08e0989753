use word_shield::highscore::{
    check_highscore_content, highscore_record, highscore_screen, read_highscores,
    sort_highscores, top_highscores,
};

fn rule(n: usize) -> String {
    format!(" {}", "-".repeat(n))
}

#[test]
fn table_sorted_by_score_stable() {
    let content = "alice;120;3;1700000000\nbob;300;7;1700000001\ncarl;120;3;1700000002\n";
    assert!(check_highscore_content(content));
    let table = top_highscores(content);
    let expected = vec![
        " Top 10 highscores:".to_string(),
        rule(36),
        " Player\tScore\t\tLevel".to_string(),
        rule(36),
        " bob   \t 300\t\t 7".to_string(),
        " alice \t 120\t\t 3".to_string(),
        " carl  \t 120\t\t 3".to_string(),
        rule(36),
    ];
    assert_eq!(table, expected);
}

#[test]
fn table_shows_ten_best_and_pads_long_names() {
    let mut content = String::new();
    for i in 0..12 {
        content.push_str(&format!("player{};{};1;0\n", i, i * 10));
    }
    content.push_str("a_rather_long_name;5;2;0\n");
    content.push_str("not a record line\n");
    let table = top_highscores(&content);
    assert_eq!(table.len(), 15);
    let padding = "a_rather_long_name".len();
    assert_eq!(table[1], rule(padding + 30));
    assert_eq!(table[2], format!(" Player{}\tScore\t\tLevel", " ".repeat(padding - 6)));
    assert_eq!(table[4], format!(" player11{}\t 110\t\t 1", " ".repeat(padding - 8)));
    assert_eq!(table[13], format!(" player2{}\t 20\t\t 1", " ".repeat(padding - 7)));
}

#[test]
fn name_width_counts_bytes() {
    let content = "Åsa-Öberg;10;1;0\n";
    let table = top_highscores(content);
    let padding = "Åsa-Öberg".len();
    assert_eq!(padding, 11);
    assert_eq!(table[1], rule(41));
    assert_eq!(table[4], " Åsa-Öberg\t 10\t\t 1");
}

#[test]
fn empty_file_gives_empty_table() {
    let table = top_highscores("");
    assert_eq!(table, vec![
        " Top 10 highscores:".to_string(),
        rule(36),
        " Player\tScore\t\tLevel".to_string(),
        rule(36),
        rule(36),
    ]);
    assert_eq!(highscore_screen(""), table.join("\n"));
}

#[test]
fn bad_numbers_are_refused() {
    assert!(!check_highscore_content("bob;many;1;0\n"));
    assert!(!check_highscore_content("bob;1;x;0\n"));
    assert!(check_highscore_content("bob;1;x\n"));
    assert!(check_highscore_content("bob;1;2;not-a-time\n"));
}

#[test]
fn record_is_read_back() {
    let mut content = String::from("old;1;1;1\n");
    let line = highscore_record("Åke", -3, 2, 1700000000);
    assert_eq!(line, "Åke;-3;2;1700000000");
    content.push_str(&line);
    content.push('\n');
    let entries = read_highscores(&content);
    assert_eq!(entries.len(), 2);
    assert_eq!(entries[1].username, "Åke");
    assert_eq!(entries[1].score, -3);
    assert_eq!(entries[1].level, 2);
}

#[test]
fn sort_keeps_equal_scores_in_order() {
    let entries = read_highscores("a;5;1;0\nb;7;1;0\nc;5;2;0\nd;7;3;0\ne;1;1;0\n");
    let sorted = sort_highscores(entries);
    let names: Vec<&str> = sorted.iter().map(|e| e.username.as_str()).collect();
    assert_eq!(names, vec!["b", "d", "a", "c", "e"]);
}

#[test]
fn screen_joins_lines() {
    let content = "x;1;1;0\r\n";
    let screen = highscore_screen(content);
    assert_eq!(screen, top_highscores(content).join("\n"));
    assert!(screen.contains(" x     \t 1\t\t 1"));
}

#[test]
fn new_record_shown_when_fewer_than_ten_score_as_much() {
    let mut content = String::new();
    for i in 0..12 {
        content.push_str(&format!("p{};{};1;0\n", i, i * 10));
    }
    // 10 earlier rows score at least 20 (20..=110): not shown
    let mut c1 = content.clone();
    c1.push_str(&highscore_record("newbie", 20, 1, 5));
    c1.push('\n');
    assert!(!top_highscores(&c1).iter().any(|l| l.contains("newbie")));
    // 9 earlier rows score at least 21 (30..=110): shown right after them
    let mut c2 = content.clone();
    c2.push_str(&highscore_record("newbie", 21, 1, 5));
    c2.push('\n');
    let table = top_highscores(&c2);
    assert!(table[4 + 9].starts_with(" newbie"));
}
