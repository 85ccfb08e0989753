use word_shield::render::{
    can_draw_words, can_truncate, draw_border, draw_shield, draw_toolbar, draw_words,
    truncate_word,
};
use word_shield::structs::{Field, Player, Word};

fn word(text: &str, x: i32) -> Word {
    Word {
        word: text.to_string(),
        original_word: text.to_string(),
        x,
        y: 9,
        started: false,
        enabled: true,
        completed: false,
        hit: false,
    }
}

#[test]
fn truncation() {
    let mut w = word("elephant", 75);
    assert!(can_truncate(&w, 79));
    assert_eq!(truncate_word(&mut w, 79), "elep");
    let mut w = word("cat", 10);
    assert_eq!(truncate_word(&mut w, 79), "cat");
    let mut w = word("cat", 76);
    assert_eq!(truncate_word(&mut w, 79), "cat");
    // the cut would fall inside a two-byte letter
    let w = word("aé", 77);
    assert!(!can_truncate(&w, 79));
    let mut w = word("aé", 78);
    assert!(can_truncate(&w, 79));
    assert_eq!(truncate_word(&mut w, 79), "a");
    let mut w = word("aé", 76);
    assert_eq!(truncate_word(&mut w, 79), "aé");
}

#[test]
fn drawing_words() {
    let f = Field { width: 80, height: 24 };
    let mut words = vec![word("elephant", 75), word("", 30), word("dog", 40)];
    words[2].started = true;
    words[1].completed = false;
    assert!(can_draw_words(&words, &f));
    let sprites = draw_words(&mut words, &f);
    assert_eq!(sprites.len(), 3);
    let s0 = sprites[0].as_ref().unwrap();
    assert_eq!((s0.x, s0.y, s0.text.as_str(), s0.highlighted), (75, 9, " elep", false));
    let s1 = sprites[1].as_ref().unwrap();
    assert_eq!(s1.text, " ");
    assert!(words[1].completed);
    let s2 = sprites[2].as_ref().unwrap();
    assert_eq!((s2.text.as_str(), s2.highlighted), (" dog", true));
    let again = draw_words(&mut words, &f);
    assert!(again[1].is_none());
}

#[test]
fn border() {
    let f = Field { width: 6, height: 7 };
    let sprites = draw_border(&f);
    let v: Vec<(i32, i32, &str)> = sprites.iter().map(|s| (s.x, s.y, s.text.as_str())).collect();
    assert_eq!(v, vec![
        (0, 2, "/----\\"),
        (0, 3, "|"), (5, 3, "|"),
        (0, 4, "|"), (5, 4, "|"),
        (0, 5, "|"), (5, 5, "|"),
        (0, 6, "\\----/"),
    ]);
}

#[test]
fn shield() {
    let f = Field { width: 80, height: 10 };
    let sprites = draw_shield(&f);
    let v: Vec<(i32, i32, &str)> = sprites.iter().map(|s| (s.x, s.y, s.text.as_str())).collect();
    assert_eq!(v, vec![
        (15, 3, "|"), (15, 4, "v"), (15, 5, "#"), (15, 6, "#"), (15, 7, "^"), (15, 8, "|"),
    ]);
}

#[test]
fn toolbar() {
    let mut p = Player::new("kim".to_string());
    p.score = 42;
    p.shields = 3;
    let sprites = draw_toolbar(&p);
    let v: Vec<(i32, i32, &str)> = sprites.iter().map(|s| (s.x, s.y, s.text.as_str())).collect();
    assert_eq!(v, vec![
        (5, 1, "Score: 42"),
        (25, 1, "Level: 1"),
        (47, 1, "Shields: [ ............... ]"),
        (58, 1, ">>>"),
    ]);
    p.shields = -2;
    assert_eq!(draw_toolbar(&p)[3].text, "");
}

#[test]
fn cut_words_stay_inside_the_border() {
    for x in 60..80 {
        let mut w = word("hippopotamus", x);
        let cut = truncate_word(&mut w, 79);
        assert!(cut.len() as i32 + x <= 79);
    }
}
