use word_shield::game::{
    add_word, advance_level, begin_add_word, calculate_speed, can_add_word, can_handle_key,
    can_move_words, can_shield_hit, can_update_words, handle_key, is_move_tick, key_text,
    move_words, randomword, remove_finished_words, shield_hit, try_place_word, update_words,
    KeyInput,
};
use word_shield::structs::{Field, Player, Word, MAX_SHIELDS};

fn word(text: &str, x: i32, y: i32) -> Word {
    Word {
        word: text.to_string(),
        original_word: text.to_string(),
        x,
        y,
        started: false,
        enabled: true,
        completed: false,
        hit: false,
    }
}

fn field() -> Field {
    Field { width: 80, height: 24 }
}

#[test]
fn new_player() {
    let p = Player::new("kim".to_string());
    assert_eq!(p.name, "kim");
    assert_eq!(p.shields, MAX_SHIELDS);
    assert_eq!(p.level, 1);
    assert_eq!(p.score, 0);
    assert!(p.is_alive);
}

#[test]
fn typing_starts_matching_words() {
    let mut words = vec![word("cat", 40, 6), word("dog", 50, 7)];
    let mut p = Player::new("kim".to_string());
    assert!(can_update_words(&"c".to_string(), &words, &p));
    update_words("c".to_string(), &mut words, &mut p);
    assert_eq!(words[0].word, "at");
    assert_eq!(words[0].x, 41);
    assert!(words[0].started && words[0].hit);
    assert_eq!(words[1].word, "dog");
    assert!(!words[1].started);
    assert_eq!(p.score, 1);
}

#[test]
fn started_word_must_be_finished() {
    let mut words = vec![word("cat", 40, 6), word("ant", 50, 7)];
    words[0].word = "at".to_string();
    words[0].started = true;
    let mut p = Player::new("kim".to_string());
    update_words("a".to_string(), &mut words, &mut p);
    assert_eq!(words[0].word, "t");
    assert_eq!(words[1].word, "ant");
    assert!(!words[1].started);
    assert_eq!(p.score, 1);
    update_words("x".to_string(), &mut words, &mut p);
    assert_eq!(words[0].word, "t");
    assert_eq!(p.score, 1);
}

#[test]
fn shield_takes_letters() {
    let mut words = vec![word("cat", 14, 6), word("dog", 15, 7), word("", 3, 8)];
    let mut p = Player::new("kim".to_string());
    assert!(can_shield_hit(&words, &p));
    let hits = shield_hit(&mut words, &mut p);
    assert_eq!(hits, 1);
    assert_eq!(words[0].word, "at");
    assert_eq!(words[0].x, 15);
    assert_eq!(words[1].word, "dog");
    assert_eq!(words[2].x, 3);
    assert_eq!(p.shields, MAX_SHIELDS - 1);
    assert!(p.is_alive);
}

#[test]
fn no_shields_ends_the_game() {
    let mut words = vec![word("cat", 14, 6)];
    let mut p = Player::new("kim".to_string());
    p.shields = 0;
    let hits = shield_hit(&mut words, &mut p);
    assert_eq!(hits, 1);
    assert!(!p.is_alive);
    assert_eq!(p.shields, -1);
}

#[test]
fn words_move_left() {
    let mut words = vec![word("cat", 14, 6), word("dog", -2, 7)];
    assert!(can_move_words(&words));
    move_words(&mut words);
    assert_eq!(words[0].x, 13);
    assert_eq!(words[1].x, -3);
    assert!(!can_move_words(&vec![word("a", i32::MIN, 1)]));
}

#[test]
fn speed_and_level() {
    let mut p = Player::new("kim".to_string());
    assert_eq!(calculate_speed(&mut p), 15306);
    p.score = 49;
    advance_level(&mut p);
    assert_eq!(p.level, 1);
    p.score = 120;
    advance_level(&mut p);
    assert_eq!(p.level, 3);
    assert_eq!(calculate_speed(&mut p), 15000 + 151 * 6);
}

#[test]
fn move_ticks() {
    assert!(is_move_tick(10306 * 3, 15306));
    assert!(!is_move_tick(10306 * 3 + 1, 15306));
    assert!(is_move_tick(0, 15306));
    assert!(is_move_tick(-10, 4995));
}

#[test]
fn keys() {
    assert_eq!(key_text(KeyInput::Char('q')), "q");
    assert_eq!(key_text(KeyInput::Esc), "EXIT");
    assert_eq!(key_text(KeyInput::Other), "");
    let mut words = vec![word("cat", 40, 6)];
    let mut p = Player::new("kim".to_string());
    let exit = "EXIT".to_string();
    assert!(can_handle_key(&exit, &words, &p));
    assert!(!handle_key(&exit, &mut words, &mut p));
    assert!(!p.is_alive);
    let mut p = Player::new("kim".to_string());
    assert!(handle_key(&"c".to_string(), &mut words, &mut p));
    assert_eq!(words[0].word, "at");
    assert!(!handle_key(&"é".to_string(), &mut words, &mut p));
    assert_eq!(words[0].word, "at");
}

#[test]
fn finished_words_leave() {
    let mut words = vec![word("", 1, 5), word("dog", 2, 6), word("", 3, 7)];
    words[0].completed = true;
    remove_finished_words(&mut words);
    assert_eq!(words.len(), 2);
    assert_eq!(words[0].word, "dog");
    assert_eq!(words[1].x, 3);
}

#[test]
fn placing_words() {
    let mut words = vec![word("cat", 40, 6)];
    // first letter taken
    assert!(try_place_word(&mut words, word("cow", 78, 9), 15));
    assert_eq!(words.len(), 1);
    // same row
    assert!(!try_place_word(&mut words, word("dog", 78, 6), 15));
    assert_eq!(words.len(), 1);
    // too close: lead 37 is not below 78 - 45
    assert!(!try_place_word(&mut words, word("dog", 78, 9), 45));
    assert_eq!(words.len(), 1);
    assert!(!try_place_word(&mut words, word("dog", 78, 9), 15));
    assert_eq!(words.len(), 2);
    assert_eq!(words[1].word, "dog");
}

#[test]
fn beginning_to_add() {
    let p = Player::new("kim".to_string());
    let mut words = Vec::new();
    assert!(!begin_add_word(&mut words, &p, word("cat", 78, 6)));
    assert_eq!(words.len(), 1);
    // level 1 allows 2 words; "cow" clashes with "cat"
    assert!(begin_add_word(&mut words, &p, word("cow", 78, 7)));
    assert!(!begin_add_word(&mut words, &p, word("dog", 78, 7)));
    assert_eq!(words.len(), 1);
    words.push(word("dog", 60, 8));
    assert!(!begin_add_word(&mut words, &p, word("cow", 78, 7)));
}

#[test]
fn random_words_come_from_dictionary() {
    let dict = vec!["cat".to_string(), "dog".to_string()];
    let f = field();
    for _ in 0..50 {
        let w = randomword(&f, &dict);
        assert!(dict.contains(&w.word));
        assert_eq!(w.original_word, w.word);
        assert_eq!(w.x, 78);
        assert!(5 <= w.y && w.y < 21);
        assert!(w.enabled && !w.started && !w.completed && !w.hit);
    }
    let w = Word::new(&"bird".to_string(), &f);
    assert_eq!(w.word, "bird");
    assert!(5 <= w.y && w.y < 21);
}

#[test]
fn adding_to_empty_field() {
    let dict = vec!["cat".to_string()];
    let f = field();
    let p = Player::new("kim".to_string());
    let mut words = Vec::new();
    assert!(can_add_word(&f, &words, &dict, &p));
    assert!(!add_word(&f, &mut words, &dict, &p));
    assert_eq!(words.len(), 1);
    assert_eq!(words[0].word, "cat");
    // the only word clashes with itself
    assert!(add_word(&f, &mut words, &dict, &p));
    assert_eq!(words.len(), 1);
}

fn letters(words: &[Word]) -> usize {
    words.iter().map(|w| w.word.chars().count()).sum()
}

#[test]
fn every_typed_letter_is_a_point() {
    let mut words = vec![word("cat", 40, 6), word("cow", 50, 7), word("dog", 60, 8)];
    let mut p = Player::new("kim".to_string());
    let before = letters(&words);
    update_words("c".to_string(), &mut words, &mut p);
    assert_eq!(letters(&words) + p.score as usize, before);
    assert_eq!(p.score, 2);
}

#[test]
fn every_letter_at_the_shield_is_a_shield() {
    let mut words = vec![word("cat", 1, 6), word("cow", 14, 7), word("dog", 60, 8)];
    let mut p = Player::new("kim".to_string());
    let before = letters(&words);
    let hits = shield_hit(&mut words, &mut p);
    assert_eq!(letters(&words) + hits, before);
    assert_eq!(p.shields, MAX_SHIELDS - hits as i32);
}
